//! Constants that turn division by a fixed 32-bit divisor into a
//! multiplication and shifts.
use vstd::prelude::*;
use vstd::arithmetic::div_mod::*;
use vstd::arithmetic::mul::*;
use vstd::arithmetic::power2::*;
use vstd::bits::*;
use vstd::std_specs::bits::*;

verus! {

/// Multiplier and shifts for dividing by a fixed divisor.
#[derive(Clone, Copy, Debug, PartialEq, Eq, Structural)]
pub struct ReciprocalValue {
    pub m: u32,
    pub sh1: u8,
    pub sh2: u8,
}

/// The least `l` with `d <= 2^l` (zero for `d <= 1`).
pub open spec fn ceil_log2(d: nat) -> nat
    decreases d,
{
    if d <= 1 {
        0
    } else {
        ceil_log2(((d + 1) / 2) as nat) + 1
    }
}

/// `ceil_log2(d)` is the exponent of the least power of two not below `d`.
pub proof fn lemma_ceil_log2_bounds(d: nat)
    requires
        d >= 1,
    ensures
        d <= pow2(ceil_log2(d)),
        ceil_log2(d) > 0 ==> pow2((ceil_log2(d) - 1) as nat) < d,
    decreases d,
{
    if d > 1 {
        let h = ((d + 1) / 2) as nat;
        lemma_ceil_log2_bounds(h);
        let c = ceil_log2(h);
        lemma_pow2_unfold(c + 1);
        if c > 0 {
            lemma_pow2_unfold(c);
        } else {
            lemma2_to64();
        }
    } else {
        lemma2_to64();
    }
}

/// An exponent with `2^(l-1) < d <= 2^l` is `ceil_log2(d)`.
pub proof fn lemma_ceil_log2_unique(d: nat, l: nat)
    requires
        d >= 1,
        d <= pow2(l),
        l > 0 ==> pow2((l - 1) as nat) < d,
    ensures
        l == ceil_log2(d),
{
    lemma_ceil_log2_bounds(d);
    let c = ceil_log2(d);
    if l < c {
        if l < (c - 1) as nat {
            lemma_pow2_strictly_increases(l, (c - 1) as nat);
        }
    } else if c < l {
        if c < (l - 1) as nat {
            lemma_pow2_strictly_increases(c, (l - 1) as nat);
        }
    }
}

/// The top bit of a nonzero 32-bit word lies at `31 - leading_zeros`.
proof fn lemma_top_bit_u32(x: u32)
    requires
        x != 0,
    ensures
        u32_leading_zeros(x) < 32,
        pow2((31 - u32_leading_zeros(x)) as nat) <= x,
        x < pow2((32 - u32_leading_zeros(x)) as nat),
{
    axiom_u32_leading_zeros(x);
    let lz = u32_leading_zeros(x);
    let p = (31 - lz) as u32;
    assert(x >= (1u32 << p)) by (bit_vector)
        requires
            p < 32,
            (x >> p) & 1u32 != 0u32,
    ;
    lemma_u32_pow2_no_overflow(p as nat);
    lemma_mul_basics(pow2(p as nat) as int);
    lemma_u32_shl_is_mul(1, p);
    if lz == 0 {
        lemma2_to64();
    } else {
        let q = (32 - lz) as u32;
        assert(x < (1u32 << q)) by (bit_vector)
            requires
                q < 32,
                x >> q == 0,
        ;
        lemma_u32_pow2_no_overflow(q as nat);
        lemma_mul_basics(pow2(q as nat) as int);
        lemma_u32_shl_is_mul(1, q);
    }
}

/// `32 - leading_zeros(d - 1)` is `ceil_log2(d)` for `d >= 2`.
proof fn lemma_ceil_log2_from_leading_zeros(d: u32)
    requires
        d >= 2,
    ensures
        32 - u32_leading_zeros((d - 1) as u32) == ceil_log2(d as nat),
        ceil_log2(d as nat) <= 32,
{
    let x = (d - 1) as u32;
    lemma_top_bit_u32(x);
    let l = (32 - u32_leading_zeros(x)) as nat;
    lemma_ceil_log2_unique(d as nat, l);
}

/// The multiplier, the value `2^32 * (2^l - d) / d + 1` for `l == ceil_log2(d)`.
pub open spec fn reciprocal_multiplier(d: nat) -> nat {
    (pow2(32) * (pow2(ceil_log2(d)) - d) as nat) / d + 1
}

/// The multiplier of a divisor fits in 32 bits.
proof fn lemma_reciprocal_multiplier_fits(d: nat)
    requires
        1 <= d <= u32::MAX,
    ensures
        reciprocal_multiplier(d) <= u32::MAX,
        pow2(32) * ((pow2(ceil_log2(d)) - d) as nat) < 0x8000_0000_0000_0000,
{
    lemma_ceil_log2_bounds(d);
    let l = ceil_log2(d);
    let big_l = pow2(l);
    lemma2_to64();
    lemma2_to64_rest();
    if l == 0 {
        assert(big_l - d == 0);
        lemma_mul_basics(pow2(32) as int);
        lemma_basic_div(0, d as int);
    } else {
        lemma_pow2_unfold(l);
        let h = pow2((l - 1) as nat);
        // d > h and big_l == 2 * h, so big_l - d < h <= 2^31
        if l - 1 > 31 {
            lemma_pow2_strictly_increases(32, (l - 1) as nat);
        }
        if l - 1 < 31 {
            lemma_pow2_strictly_increases((l - 1) as nat, 31);
        }
        let k = (big_l - d) as nat;
        assert(pow2(32) * k < 0x8000_0000_0000_0000) by (nonlinear_arith)
            requires
                k < h,
                h <= 0x8000_0000,
                pow2(32) == 0x1_0000_0000,
        ;
        assert(pow2(32) * k < (pow2(32) - 1) * d) by (nonlinear_arith)
            requires
                k == 2 * h - d,
                d >= h + 1,
                h <= 0x8000_0000,
                pow2(32) == 0x1_0000_0000,
        ;
        lemma_div_by_multiple_is_strongly_ordered_le((pow2(32) * k) as int, d as int, (pow2(32) - 1) as int);
    }
}

/// `x < q * d` gives `x / d < q`.
proof fn lemma_div_by_multiple_is_strongly_ordered_le(x: int, d: int, q: int)
    requires
        0 <= x,
        d > 0,
        x < q * d,
    ensures
        x / d < q,
{
    lemma_fundamental_div_mod(x, d);
    lemma_mod_pos_bound(x, d);
    if x / d >= q {
        lemma_mul_inequality(q, x / d, d);
        lemma_mul_is_commutative(d, x / d);
    }
}

/// The constants for divisor `d`: the multiplier, `min(l, 1)` and
/// `max(l - 1, 0)` for `l == ceil_log2(d)`.
pub open spec fn reciprocal_of(d: nat) -> ReciprocalValue {
    let l = ceil_log2(d);
    ReciprocalValue {
        m: reciprocal_multiplier(d) as u32,
        sh1: (if l < 1 { l } else { 1 }) as u8,
        sh2: (if l < 1 { 0 } else { (l - 1) as nat }) as u8,
    }
}

/// Division of `a` with the constants `r`: `t = (a * m) >> 32`, then
/// `(t + ((a - t) >> sh1)) >> sh2`.
pub open spec fn reciprocal_divide(a: u32, r: ReciprocalValue) -> nat {
    let t = (a * r.m) as nat / pow2(32);
    (t + ((a - t) as nat) / pow2(r.sh1 as nat)) / pow2(r.sh2 as nat)
}

/// Calculates the reciprocal multiplier and shifts that replace division by
/// `d` with a multiplication and two shifts.
pub fn reciprocal_value(d: u32) -> (r: ReciprocalValue)
    requires
        d != 0,
    ensures
        r == reciprocal_of(d as nat),
{
    let x = d.wrapping_sub(1);
    let l: i32 = if x == 0 {
        0
    } else {
        (32 - x.leading_zeros()) as i32
    };
    proof {
        if x != 0 {
            axiom_u32_leading_zeros(x);
            lemma_ceil_log2_from_leading_zeros(d);
        }
        assert(l as nat == ceil_log2(d as nat));
        lemma_ceil_log2_bounds(d as nat);
        lemma_reciprocal_multiplier_fits(d as nat);
        lemma_u64_pow2_no_overflow(l as nat);
        lemma_mul_basics(pow2(l as nat) as int);
        lemma_u64_shl_is_mul(1, l as u64);
        let lu = l as u32;
        assert(1u64 << lu == 1u64 << (lu as u64)) by (bit_vector);
        lemma2_to64();
        lemma2_to64_rest();
        lemma_mul_basics(pow2(32) as int);
        lemma_u64_shl_is_mul(1, 32);
        lemma_small_mod((pow2(32) * (pow2(l as nat) - d) as nat) as nat, 0x1_0000_0000_0000_0000);
    }

    let mut m = (1u64 << 32).wrapping_mul((1u64.wrapping_shl(l as u32)).wrapping_sub(d as u64));
    m = m / (d as u64);
    m = m.wrapping_add(1);

    ReciprocalValue {
        m: m as u32,
        sh1: (if l < 1 { l } else { 1 }) as u8,
        sh2: (if l - 1 > 0 { l - 1 } else { 0 }) as u8,
    }
}

/// The product of the full multiplier `2^32 + m` and `d` exceeds `2^(32 + l)`
/// by at least one and at most `d`.
proof fn lemma_full_multiplier(d: nat)
    requires
        1 <= d <= u32::MAX,
    ensures
        ({
            let big_m = pow2(32) + reciprocal_multiplier(d);
            let pl = pow2(32) * pow2(ceil_log2(d));
            &&& pl < big_m * d
            &&& big_m * d <= pl + d
        }),
{
    lemma_ceil_log2_bounds(d);
    let l = ceil_log2(d);
    let big_l = pow2(l);
    let p = pow2(32);
    let x = (p * ((big_l - d) as nat)) as nat;
    lemma_fundamental_div_mod(x as int, d as int);
    lemma_mod_pos_bound(x as int, d as int);
    let f = x / d;
    let g = x % d;
    let big_m = p + f + 1;
    assert(big_m * d == p * big_l - g + d) by (nonlinear_arith)
        requires
            x == d * f + g,
            x == p * (big_l - d),
            big_m == p + f + 1,
    ;
}

/// Law: dividing with the constants from `reciprocal_value(d)` gives `a / d`
/// for every 32-bit `a`; the intermediate `t` is at most `a`, so the
/// 32-bit subtraction and sum do not wrap.
pub proof fn lemma_reciprocal_divide(a: u32, d: u32)
    requires
        d != 0,
    ensures
        (a * reciprocal_of(d as nat).m) as nat / pow2(32) <= a,
        reciprocal_divide(a, reciprocal_of(d as nat)) == a as nat / d as nat,
{
    let r = reciprocal_of(d as nat);
    let l = ceil_log2(d as nat);
    let big_l = pow2(l);
    let p = pow2(32);
    lemma2_to64();
    lemma_reciprocal_multiplier_fits(d as nat);
    lemma_ceil_log2_bounds(d as nat);
    lemma_ceil_log2_at_most_32(d as nat);
    let m = reciprocal_multiplier(d as nat);
    assert(r.m == m);
    let am = (a * m) as nat;
    let t = am / p;
    // t <= a, since m < 2^32
    assert(am < a * p + p) by (nonlinear_arith)
        requires
            m < p,
            am == a * m,
    ;
    assert(t <= a) by {
        lemma_div_by_multiple_is_strongly_ordered_le(am as int, p as int, (a + 1) as int);
        lemma_mul_is_distributive_add_other_way(p as int, a as int, 1);
        lemma_mul_is_commutative(a as int, p as int);
    }
    if l == 0 {
        assert(d == 1);
        assert(r.sh1 == 0 && r.sh2 == 0);
        assert(m == 1) by {
            lemma_mul_basics(p as int);
            lemma_basic_div(0, d as int);
        }
        lemma_mul_basics(a as int);
        lemma_basic_div(a as int, p as int);
        assert(t == 0);
    } else {
        assert(r.sh1 == 1 && r.sh2 == l - 1);
        lemma_pow2_unfold(l);
        let h = pow2((l - 1) as nat);
        lemma_pow2_pos((l - 1) as nat);
        // t + (a - t) / 2 == (a + t) / 2
        assert(t + ((a - t) as nat) / 2 == (a + t) / 2) by {
            lemma_div_add_multiple(t as int, (a - t) as int, 2);
        }
        // ((a + t) / 2) / 2^(l - 1) == (a + t) / 2^l
        lemma_div_denominator((a + t) as int, 2, h as int);
        // a + t == (a * (2^32 + m)) / 2^32
        let big_m = p + m;
        assert(a + t == (a * big_m) as nat / p) by {
            assert(a * big_m == p * a + am) by (nonlinear_arith)
                requires
                    big_m == p + m,
                    am == a * m,
            ;
            lemma_div_add_multiple(a as int, am as int, p as int);
        }
        // ((a * M) / 2^32) / 2^l == (a * M) / (2^32 * 2^l)
        lemma_div_denominator((a * big_m) as int, p as int, big_l as int);
        // (a * M) / (2^32 * 2^l) == a / d
        lemma_full_multiplier(d as nat);
        let pl = p * big_l;
        let q = a as nat / d as nat;
        lemma_fundamental_div_mod(a as int, d as int);
        lemma_mod_pos_bound(a as int, d as int);
        let s = a as nat % d as nat;
        assert(q * pl <= a * big_m && a * big_m < (q + 1) * pl) by (nonlinear_arith)
            requires
                a == d * q + s,
                s < d,
                pl < big_m * d,
                big_m * d <= pl + d,
                d <= big_l,
                a < p,
                pl == p * big_l,
                d >= 1,
        ;
        assert((q + 1) * pl == q * pl + pl) by (nonlinear_arith);
        lemma_pow2_pos(l);
        lemma_mul_strictly_positive(p as int, big_l as int);
        lemma_fundamental_div_mod_converse(
            (a * big_m) as int,
            pl as int,
            q as int,
            (a * big_m - q * pl) as int,
        );
    }
}

/// `(d * k + x) / d == k + x / d` for `x >= 0`.
pub(crate) proof fn lemma_div_add_multiple(k: int, x: int, d: int)
    requires
        0 <= x,
        0 < d,
    ensures
        (d * k + x) / d == k + x / d,
{
    lemma_fundamental_div_mod(x, d);
    lemma_mod_pos_bound(x, d);
    assert(d * k + x == d * (k + x / d) + x % d) by {
        lemma_mul_is_distributive_add(d, k, x / d);
    }
    lemma_div_multiples_vanish_fancy(k + x / d, x % d, d);
}

/// A 32-bit divisor needs at most 32 doublings.
proof fn lemma_ceil_log2_at_most_32(d: nat)
    requires
        1 <= d <= u32::MAX,
    ensures
        ceil_log2(d) <= 32,
{
    lemma_ceil_log2_bounds(d);
    let l = ceil_log2(d);
    if l > 32 {
        lemma2_to64();
        if l - 1 > 32 {
            lemma_pow2_strictly_increases(32, (l - 1) as nat);
        }
    }
}

/// Multiplier and shifts for dividing values of limited precision by a fixed
/// divisor, as used by code generators.
#[derive(Clone, Copy, Debug, PartialEq, Eq, Structural)]
pub struct ReciprocalValueAdv {
    pub m: u32,
    pub sh: u8,
    pub exp: u8,
    pub is_wide_m: bool,
}

/// `1 << e` with the shift taken modulo 64, as `u64::wrapping_shl` does.
pub open spec fn wrapped_power(e: int) -> nat {
    pow2((e % 64) as nat)
}

/// Halving both bounds while that keeps them apart and a shift is left:
/// returns the final upper bound and shift.
pub open spec fn reduce_bounds(mlow: nat, mhigh: nat, post_shift: nat) -> (nat, nat)
    decreases post_shift,
{
    if post_shift == 0 || mlow / 2 >= mhigh / 2 {
        (mhigh, post_shift)
    } else {
        reduce_bounds(mlow / 2, mhigh / 2, (post_shift - 1) as nat)
    }
}

/// The full multiplier and the shift for divisor `d` and precision `prec`,
/// with `l == ceil_log2(d)`: the bounds `2^(32+l) / d` and
/// `(2^(32+l) + 2^(32+l-prec)) / d` (sum taken modulo `2^64`, shift amounts
/// taken modulo 64), reduced together.
pub open spec fn reciprocal_adv_reduced(d: nat, prec: nat) -> (nat, nat) {
    let l = ceil_log2(d);
    let mlow = wrapped_power(32 + l as int) / d;
    let mhigh = ((wrapped_power(32 + l as int) + wrapped_power(32 + l - prec))
        % 0x1_0000_0000_0000_0000) / d;
    reduce_bounds(mlow, mhigh, l)
}

/// The constants for divisor `d` and precision `prec`, with `l == ceil_log2(d)`:
/// the reduced upper bound of `reciprocal_adv_reduced` in 32 bits and its
/// 33rd bit, the final shift and `l`.
pub open spec fn reciprocal_adv_of(d: nat, prec: nat) -> ReciprocalValueAdv {
    let l = ceil_log2(d);
    let (m, sh) = reciprocal_adv_reduced(d, prec);
    ReciprocalValueAdv {
        m: (m % 0x1_0000_0000) as u32,
        sh: sh as u8,
        exp: l as u8,
        is_wide_m: m > u32::MAX,
    }
}

/// `1u64.wrapping_shl(e)` is two to the power of `e` modulo 64.
proof fn lemma_wrapping_shl_one(e: u32)
    ensures
        1u64.wrapping_shl(e) == wrapped_power(e as int),
{
    let sh = e % 64;
    lemma_u64_pow2_no_overflow(sh as nat);
    lemma_mul_basics(pow2(sh as nat) as int);
    lemma_u64_shl_is_mul(1, sh as u64);
    assert(1u64 << sh == 1u64 << (sh as u64)) by (bit_vector)
        requires
            sh < 64,
    ;
}

/// The shift amount `(32 + l).wrapping_sub(prec)` is `32 + l - prec` modulo 64.
proof fn lemma_wrapping_shift_amount(l: u32, prec: u8)
    requires
        l <= 32,
    ensures
        ((32 + l) as u32).wrapping_sub(prec as u32) as int % 64 == (32 + l - prec) % 64,
{
    let x = 32 + l - prec;
    if x < 0 {
        lemma_mod_multiples_vanish(0x400_0000, x, 64);
    }
}

/// Reducing never raises the shift.
proof fn lemma_reduce_bounds_shift_le(mlow: nat, mhigh: nat, s: nat)
    ensures
        reduce_bounds(mlow, mhigh, s).1 <= s,
    decreases s,
{
    if s > 0 && mlow / 2 < mhigh / 2 {
        lemma_reduce_bounds_shift_le(mlow / 2, mhigh / 2, (s - 1) as nat);
    }
}

/// Law: with the fields that `reciprocal_value_adv(d, prec)` returns, for a
/// divisor with `ceil_log2(d) < 32` and `max(ceil_log2(d), 1) <= prec <= 32`,
/// the multiplier `m`, with `2^32` added when `is_wide_m`, times any dividend
/// below `2^prec`, shifted right by `32 + sh`, is the quotient by `d`.
pub proof fn lemma_reciprocal_adv_fields_divide(d: u32, prec: u8, n: nat)
    requires
        d != 0,
        ceil_log2(d as nat) < 32,
        1 <= prec <= 32,
        prec >= ceil_log2(d as nat),
        n < pow2(prec as nat),
    ensures
        ({
            let r = reciprocal_adv_of(d as nat, prec as nat);
            let big_m: nat = r.m as nat + if r.is_wide_m { 0x1_0000_0000nat } else { 0nat };
            n / (d as nat) == (big_m * n) / pow2(32 + r.sh as nat)
        }),
{
    lemma_reciprocal_adv_divides(d, prec, n);
    let (m, sh) = reciprocal_adv_reduced(d as nat, prec as nat);
    let l = ceil_log2(d as nat);
    let mlow = wrapped_power(32 + l as int) / (d as nat);
    let mhigh = ((wrapped_power(32 + l as int) + wrapped_power(32 + l - prec))
        % 0x1_0000_0000_0000_0000) / (d as nat);
    lemma_reduce_bounds_shift_le(mlow, mhigh, l);
    let r = reciprocal_adv_of(d as nat, prec as nat);
    assert(r.sh as nat == sh);
    if m > u32::MAX {
        lemma_fundamental_div_mod_converse(m as int, 0x1_0000_0000, 1, m - 0x1_0000_0000);
    } else {
        lemma_small_mod(m, 0x1_0000_0000);
    }
}

/// Law: the exponent reported for divisor `d` is the least `e` with
/// `d <= 2^e`: `2^(e-1) < d <= 2^e`, and zero for `d == 1`.
pub proof fn lemma_reciprocal_adv_exp(d: u32, prec: u8)
    requires
        d != 0,
    ensures
        ({
            let e = reciprocal_adv_of(d as nat, prec as nat).exp as nat;
            &&& d <= pow2(e)
            &&& e > 0 ==> pow2((e - 1) as nat) < d
            &&& d == 1 ==> e == 0
        }),
{
    lemma_ceil_log2_at_most_32(d as nat);
    lemma_ceil_log2_bounds(d as nat);
    let l = ceil_log2(d as nat);
    assert(reciprocal_adv_of(d as nat, prec as nat).exp as nat == l);
}

/// Calculates the multiplier and shifts for dividing values of `prec` bits
/// by `d`.
pub fn reciprocal_value_adv(d: u32, prec: u8) -> (r: ReciprocalValueAdv)
    requires
        d != 0,
    ensures
        r == reciprocal_adv_of(d as nat, prec as nat),
        d <= pow2(r.exp as nat),
        r.exp > 0 ==> pow2((r.exp - 1) as nat) < d,
{
    proof {
        lemma_reciprocal_adv_exp(d, prec);
    }
    let x = d.wrapping_sub(1);
    let l: u32 = if x == 0 {
        0
    } else {
        32 - x.leading_zeros()
    };
    proof {
        if x != 0 {
            axiom_u32_leading_zeros(x);
            lemma_ceil_log2_from_leading_zeros(d);
        }
        assert(l as nat == ceil_log2(d as nat));
        lemma_ceil_log2_at_most_32(d as nat);
        lemma_wrapping_shl_one((32 + l) as u32);
        lemma_wrapping_shl_one(((32 + l) as u32).wrapping_sub(prec as u32));
        lemma_wrapping_shift_amount(l, prec);
        lemma2_to64();
        lemma2_to64_rest();
    }

    let mut post_shift = l;
    let mut mlow = 1u64.wrapping_shl(32 + l);
    mlow = mlow / (d as u64);

    let mut mhigh = (1u64.wrapping_shl(32 + l)).wrapping_add(
        1u64.wrapping_shl((32 + l).wrapping_sub(prec as u32)),
    );
    mhigh = mhigh / (d as u64);

    let ghost result = reduce_bounds(mlow as nat, mhigh as nat, post_shift as nat);
    while post_shift > 0
        invariant
            reduce_bounds(mlow as nat, mhigh as nat, post_shift as nat) == result,
            post_shift <= 32,
        ensures
            result == (mhigh as nat, post_shift as nat),
        decreases post_shift,
    {
        proof {
            lemma_u64_shr_is_div(mlow, 1);
            lemma_u64_shr_is_div(mhigh, 1);
            lemma2_to64();
        }
        let lo = mlow >> 1;
        let hi = mhigh >> 1;
        if lo >= hi {
            break;
        }
        mlow = lo;
        mhigh = hi;
        post_shift = post_shift.wrapping_sub(1);
    }

    proof {
        assert(mhigh as u32 == (mhigh % 0x1_0000_0000) as u32) by (bit_vector);
    }
    ReciprocalValueAdv {
        m: mhigh as u32,
        sh: post_shift as u8,
        exp: l as u8,
        is_wide_m: mhigh > u32::MAX as u64,
    }
}

/// The lower bound `2^(32+s) / d` at shift `s`.
pub open spec fn adv_low(d: nat, s: nat) -> nat {
    pow2(32 + s) / d
}

/// The upper bound `(2^(32+s) + 2^(32+s-prec)) / d` at shift `s`.
pub open spec fn adv_high(d: nat, prec: nat, s: nat) -> nat {
    (pow2(32 + s) + pow2((32 + s - prec) as nat)) / d
}

/// `(2 * y) / (2 * d) == y / d`, read as halving a quotient of an even number.
proof fn lemma_half_quotient(y: nat, d: nat)
    requires
        d > 0,
    ensures
        ((2 * y) / d) / 2 == y / d,
{
    lemma_div_denominator((2 * y) as int, d as int, 2);
    lemma_mul_is_commutative(d as int, 2);
    lemma_div_denominator((2 * y) as int, 2, d as int);
    lemma_div_multiples_vanish(y as int, 2);
}

/// Halving the bounds at shift `s` gives the bounds at shift `s - 1`.
proof fn lemma_adv_halve(d: nat, prec: nat, s: nat)
    requires
        d > 0,
        s > 0,
        prec <= 32,
    ensures
        adv_low(d, s) / 2 == adv_low(d, (s - 1) as nat),
        adv_high(d, prec, s) / 2 == adv_high(d, prec, (s - 1) as nat),
{
    lemma_pow2_unfold(32 + s);
    assert((32 + s - 1) as nat == 32 + (s - 1) as nat);
    lemma_half_quotient(pow2((32 + s - 1) as nat), d);
    lemma_pow2_unfold((32 + s - prec) as nat);
    let y = pow2((32 + s - 1) as nat) + pow2((32 + s - prec - 1) as nat);
    assert(pow2(32 + s) + pow2((32 + s - prec) as nat) == 2 * y);
    lemma_half_quotient(y, d);
}

/// Reducing from shift `s` keeps the bounds of the final shift, with the lower
/// one below the upper one.
proof fn lemma_reduce_bounds_invariant(d: nat, prec: nat, s: nat)
    requires
        d > 0,
        prec <= 32,
        adv_low(d, s) < adv_high(d, prec, s),
    ensures
        reduce_bounds(adv_low(d, s), adv_high(d, prec, s), s).1 <= s,
        reduce_bounds(adv_low(d, s), adv_high(d, prec, s), s).0 == adv_high(
            d,
            prec,
            reduce_bounds(adv_low(d, s), adv_high(d, prec, s), s).1,
        ),
        adv_low(d, reduce_bounds(adv_low(d, s), adv_high(d, prec, s), s).1) < reduce_bounds(
            adv_low(d, s),
            adv_high(d, prec, s),
            s,
        ).0,
    decreases s,
{
    if s > 0 && adv_low(d, s) / 2 < adv_high(d, prec, s) / 2 {
        lemma_adv_halve(d, prec, s);
        lemma_reduce_bounds_invariant(d, prec, (s - 1) as nat);
    }
}

/// Division by `d` as multiplication by `m` and a shift by `k`, for dividends
/// below `2^prec`, when `2^k < m * d <= 2^k + 2^(k - prec)`.
proof fn lemma_multiply_shift_divides(d: nat, m: nat, k: nat, prec: nat, n: nat)
    requires
        d > 0,
        prec <= k,
        n < pow2(prec),
        pow2(k) < m * d,
        m * d <= pow2(k) + pow2((k - prec) as nat),
    ensures
        n / d == (m * n) / pow2(k),
{
    let p = pow2(k);
    let e = pow2((k - prec) as nat);
    lemma_pow2_adds(prec, (k - prec) as nat);
    assert(pow2(prec) * e == p);
    lemma_pow2_pos(k);
    let q = n / d;
    let r = n % d;
    lemma_fundamental_div_mod(n as int, d as int);
    lemma_mod_pos_bound(n as int, d as int);
    assert(q * p <= m * n && m * n < (q + 1) * p) by (nonlinear_arith)
        requires
            n == d * q + r,
            r < d,
            p < m * d,
            m * d <= p + e,
            n < pow2(prec),
            pow2(prec) * e == p,
            d > 0,
            e > 0,
    ;
    assert((q + 1) * p == q * p + p) by (nonlinear_arith);
    lemma_fundamental_div_mod_converse((m * n) as int, p as int, q as int, (m * n - q * p) as int);
}

/// The bounds at the start of the reduction, for `l = ceil_log2(d) < 32` and
/// `1 <= prec <= 32`: no shift or sum wraps, and the lower bound is below the
/// upper one.
proof fn lemma_adv_start(d: nat, prec: nat)
    requires
        1 <= d <= u32::MAX,
        ceil_log2(d) < 32,
        1 <= prec <= 32,
    ensures
        ({
            let l = ceil_log2(d);
            &&& wrapped_power(32 + l as int) / d == adv_low(d, l)
            &&& ((wrapped_power(32 + l as int) + wrapped_power(32 + l - prec))
                % 0x1_0000_0000_0000_0000) / d == adv_high(d, prec, l)
            &&& adv_low(d, l) < adv_high(d, prec, l)
        }),
{
    let l = ceil_log2(d);
    lemma_ceil_log2_bounds(d);
    lemma2_to64();
    lemma2_to64_rest();
    let a = pow2(32 + l);
    let b = pow2((32 + l - prec) as nat);
    lemma_small_mod((32 + l) as nat, 64);
    lemma_small_mod((32 + l - prec) as nat, 64);
    if 32 + l < 63 {
        lemma_pow2_strictly_increases(32 + l, 63);
    }
    if ((32 + l - prec) as nat) < 62 {
        lemma_pow2_strictly_increases((32 + l - prec) as nat, 62);
    }
    lemma_small_mod(a + b, 0x1_0000_0000_0000_0000);
    // d <= 2^l <= 2^(32 + l - prec)
    if l < (32 + l - prec) as nat {
        lemma_pow2_strictly_increases(l, (32 + l - prec) as nat);
    }
    lemma_pow2_pos(32 + l);
    lemma_fundamental_div_mod(a as int, d as int);
    lemma_mod_pos_bound(a as int, d as int);
    let q = a / d;
    assert(a + b >= d * (q + 1)) by (nonlinear_arith)
        requires
            a == d * q + a % d,
            a % d < d,
            b >= d,
    ;
    lemma_mul_is_commutative(d as int, (q + 1) as int);
    lemma_div_is_ordered((d * (q + 1)) as int, (a + b) as int, d as int);
    lemma_div_multiples_vanish((q + 1) as int, d as int);
}

/// Law: for a divisor with `ceil_log2(d) < 32` and a precision of at most
/// 32 bits, every dividend below `2^prec` is divided by `d` by multiplying it
/// by the full multiplier and shifting right by `32 + sh`.
pub proof fn lemma_reciprocal_adv_divides(d: u32, prec: u8, n: nat)
    requires
        d != 0,
        ceil_log2(d as nat) < 32,
        prec <= 32,
        n < pow2(prec as nat),
    ensures
        n / (d as nat) == (reciprocal_adv_reduced(d as nat, prec as nat).0 * n) / pow2(
            32 + reciprocal_adv_reduced(d as nat, prec as nat).1,
        ),
        prec >= 1 && prec >= ceil_log2(d as nat) ==> reciprocal_adv_reduced(
            d as nat,
            prec as nat,
        ).0 < 0x2_0000_0000,
{
    let (m, sh) = reciprocal_adv_reduced(d as nat, prec as nat);
    if prec == 0 {
        lemma2_to64();
        assert(n == 0);
        lemma_basic_div(0, d as int);
        lemma_mul_basics(m as int);
        lemma_pow2_pos(32 + sh);
        lemma_basic_div(0, pow2(32 + sh) as int);
    } else {
        let l = ceil_log2(d as nat);
        lemma_adv_start(d as nat, prec as nat);
        lemma_reduce_bounds_invariant(d as nat, prec as nat, l);
        // 2^(32+sh) < m * d <= 2^(32+sh) + 2^(32+sh-prec)
        let k = 32 + sh;
        let p = pow2(k);
        let lo = adv_low(d as nat, sh);
        lemma_fundamental_div_mod(p as int, d as int);
        lemma_mod_pos_bound(p as int, d as int);
        assert(p < m * d) by (nonlinear_arith)
            requires
                p == d * lo + (p as int) % (d as int),
                (p as int) % (d as int) < d,
                lo < m,
        ;
        let hi_num = pow2(k) + pow2((k - prec) as nat);
        lemma_fundamental_div_mod(hi_num as int, d as int);
        lemma_mod_pos_bound(hi_num as int, d as int);
        assert(m * d <= hi_num) by (nonlinear_arith)
            requires
                hi_num == d * m + (hi_num as int) % (d as int),
                (hi_num as int) % (d as int) >= 0,
        ;
        lemma_multiply_shift_divides(d as nat, m, k, prec as nat, n);
        if prec >= l {
            lemma_reduce_bounds_le(adv_low(d as nat, l), adv_high(d as nat, prec as nat, l), l);
            lemma_adv_high_fits(d as nat, prec as nat);
        }
    }
}

/// Reducing never raises the upper bound.
proof fn lemma_reduce_bounds_le(mlow: nat, mhigh: nat, s: nat)
    ensures
        reduce_bounds(mlow, mhigh, s).0 <= mhigh,
    decreases s,
{
    if s > 0 && mlow / 2 < mhigh / 2 {
        lemma_reduce_bounds_le(mlow / 2, mhigh / 2, (s - 1) as nat);
    }
}

/// With `prec >= max(ceil_log2(d), 1)` the starting upper bound is below 2^33.
proof fn lemma_adv_high_fits(d: nat, prec: nat)
    requires
        1 <= d <= u32::MAX,
        ceil_log2(d) < 32,
        1 <= prec <= 32,
        prec >= ceil_log2(d),
    ensures
        adv_high(d, prec, ceil_log2(d)) < 0x2_0000_0000,
{
    let l = ceil_log2(d);
    lemma_ceil_log2_bounds(d);
    lemma2_to64();
    let num = pow2(32 + l) + pow2((32 + l - prec) as nat);
    // 2^(32 + l - prec) <= 2^32
    if ((32 + l - prec) as nat) < 32 {
        lemma_pow2_strictly_increases((32 + l - prec) as nat, 32);
    }
    if l == 0 {
        assert(d == 1);
        lemma_pow2_strictly_increases((32 - prec) as nat, 32);
        lemma_div_basics(num as int);
    } else {
        let h = pow2((l - 1) as nat);
        lemma_pow2_adds(33, (l - 1) as nat);
        lemma_pow2_adds(32, l);
        lemma_pow2_unfold(l);
        assert(num < 0x2_0000_0000 * d) by (nonlinear_arith)
            requires
                num <= pow2(32) * pow2(l) + pow2(32),
                pow2(l) == 2 * h,
                d >= h + 1,
                pow2(32) == 0x1_0000_0000,
        ;
        lemma_div_by_multiple_is_strongly_ordered_le(num as int, d as int, 0x2_0000_0000);
    }
}

} // verus!
