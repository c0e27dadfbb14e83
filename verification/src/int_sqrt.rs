//! Integer square root by the binary digit-by-digit method.
use vstd::prelude::*;
use vstd::arithmetic::div_mod::*;
use vstd::arithmetic::mul::*;
use vstd::arithmetic::power2::*;
use vstd::bits::*;
use vstd::std_specs::bits::*;

verus! {

/// `r` is the integer square root of `x`: the largest number whose square is
/// at most `x`.
pub open spec fn is_isqrt(r: nat, x: nat) -> bool {
    r * r <= x < (r + 1) * (r + 1)
}

/// The bit of highest weight of a nonzero word lies at `63 - leading_zeros`.
proof fn lemma_top_bit(x: u64)
    requires
        x != 0,
    ensures
        0 <= u64_leading_zeros(x) < 64,
        pow2((63 - u64_leading_zeros(x)) as nat) <= x,
        x < pow2((64 - u64_leading_zeros(x)) as nat),
{
    axiom_u64_leading_zeros(x);
    let lz = u64_leading_zeros(x) as u64;
    let p = (63 - lz) as u64;
    assert(x >= (1u64 << p)) by (bit_vector)
        requires
            p < 64,
            (x >> p) & 1u64 != 0u64,
    ;
    lemma_u64_pow2_no_overflow(p as nat);
    lemma_mul_basics(pow2(p as nat) as int);
    lemma_u64_shl_is_mul(1, p);
    if lz == 0 {
        lemma2_to64_rest();
    } else {
        let q = (64 - lz) as u64;
        assert(x < (1u64 << q)) by (bit_vector)
            requires
                q < 64,
                x >> q == 0,
        ;
        lemma_u64_pow2_no_overflow(q as nat);
        lemma_mul_basics(pow2(q as nat) as int);
        lemma_u64_shl_is_mul(1, q);
    }
}

/// The largest power of four not above `x`, for `x >= 2`: its exponent of two
/// is the position of the top bit rounded down to even.
proof fn lemma_start_power(x: u64, e: nat)
    requires
        x >= 2,
        e == (63 - u64_leading_zeros(x)) - (63 - u64_leading_zeros(x)) % 2,
    ensures
        e % 2 == 0,
        e <= 62,
        pow2(e) <= x,
        x < 4 * pow2(e),
{
    lemma_top_bit(x);
    let f = (63 - u64_leading_zeros(x)) as nat;
    if e < f {
        lemma_pow2_strictly_increases(e, f);
    }
    lemma_pow2_adds(e, 2);
    lemma2_to64();
    if f + 1 < e + 2 {
        lemma_pow2_strictly_increases(f + 1, e + 2);
    }
}

/// Overflow bound on `y + m` inside the digit loop.
proof fn lemma_digit_sum_fits(x: nat, q: nat, m: nat, k: nat)
    requires
        x <= u64::MAX,
        m == pow2(2 * k),
        m <= x,
        4 * q * q * m <= x,
    ensures
        4 * q * m + m <= u64::MAX,
{
    lemma_pow2_pos(2 * k);
    if q == 0 {
        lemma_mul_basics(m as int);
        assert(4 * q * m == 0) by (nonlinear_arith)
            requires
                q == 0,
        ;
    } else if q == 1 {
        assert(4 * m <= x) by (nonlinear_arith)
            requires
                q == 1,
                4 * q * q * m <= x,
        ;
        if 2 * k + 2 >= 64 {
            lemma2_to64_rest();
            if 2 * k + 2 > 64 {
                lemma_pow2_strictly_increases(64, 2 * k + 2);
            }
            lemma_pow2_adds(2 * k, 2);
            lemma2_to64();
        }
        assert(2 * k <= 60);
        if 2 * k < 60 {
            lemma_pow2_strictly_increases(2 * k, 60);
        }
        lemma2_to64_rest();
        assert(4 * q * m + m == 5 * m) by (nonlinear_arith)
            requires
                q == 1,
        ;
    } else {
        assert(4 * q * m + m <= x / 2 + x / 8 + 1) by (nonlinear_arith)
            requires
                q >= 2,
                4 * q * q * m <= x,
                m > 0,
        ;
    }
}

/// One step of the digit loop: the next root digit is set when the remainder
/// allows it.
proof fn lemma_digit_step(x: nat, q: nat, m: nat, xv: nat)
    requires
        m > 0,
        xv + 4 * q * q * m == x,
        4 * q * q * m <= x < 4 * (q + 1) * (q + 1) * m,
    ensures
        xv >= 4 * q * m + m ==> {
            let q1 = 2 * q + 1;
            &&& (xv - (4 * q * m + m)) + q1 * q1 * m == x
            &&& q1 * q1 * m <= x < (q1 + 1) * (q1 + 1) * m
            &&& 2 * q * m + m == q1 * m
        },
        xv < 4 * q * m + m ==> {
            let q1 = 2 * q;
            &&& xv + q1 * q1 * m == x
            &&& q1 * q1 * m <= x < (q1 + 1) * (q1 + 1) * m
            &&& 2 * q * m == q1 * m
        },
{
    assert((2 * q + 1) * (2 * q + 1) * m == 4 * q * q * m + (4 * q * m + m)) by (nonlinear_arith);
    assert((2 * q + 2) * (2 * q + 2) * m == 4 * (q + 1) * (q + 1) * m) by (nonlinear_arith);
    assert((2 * q) * (2 * q) * m == 4 * q * q * m) by (nonlinear_arith);
    assert((2 * q + 1) * m == 2 * q * m + m) by (nonlinear_arith);
    assert((2 * q) * m == 2 * q * m) by (nonlinear_arith);
}

/// The digit loop, started from `m`, the largest power of four not above `x`.
fn sqrt_digits(x: u64, m: u64, Ghost(k): Ghost<nat>) -> (r: u64)
    requires
        m == pow2(2 * k),
        m <= x,
        x < 4 * m,
    ensures
        is_isqrt(r as nat, x as nat),
{
    let mut m = m;
    let mut y: u64 = 0;
    let mut x_val = x;
    let ghost mut q: nat = 0;
    let ghost mut s: nat = 4 * (m as nat);
    let ghost mut k: nat = k;

    proof {
        lemma_pow2_pos(2 * k);
        assert(q * q * s == 0 && q * s == 0 && (q + 1) * (q + 1) * s == s) by (nonlinear_arith)
            requires
                q == 0,
        ;
    }

    while m != 0
        invariant
            m > 0 ==> s == 4 * m && m == pow2(2 * k) && m <= x,
            m == 0 ==> s == 1,
            y == q * s,
            x_val + q * q * s == x,
            q * q * s <= x < (q + 1) * (q + 1) * s,
        decreases m,
    {
        proof {
            assert(q * s == 4 * q * m && q * q * s == 4 * q * q * m
                && (q + 1) * (q + 1) * s == 4 * (q + 1) * (q + 1) * m) by (nonlinear_arith)
                requires
                    s == 4 * m,
            ;
            lemma_digit_sum_fits(x as nat, q, m as nat, k);
            lemma_digit_step(x as nat, q, m as nat, x_val as nat);
            lemma_u64_shr_is_div(y, 1);
            lemma2_to64();
            assert((4 * q * m) / 2 == 2 * q * m) by (nonlinear_arith);
        }
        let b = y.wrapping_add(m);
        y >>= 1;

        if x_val >= b {
            x_val = x_val.wrapping_sub(b);
            y = y.wrapping_add(m);
            proof {
                q = 2 * q + 1;
            }
        } else {
            proof {
                q = 2 * q;
            }
        }
        proof {
            lemma_u64_shr_is_div(m, 2);
            s = m as nat;
            if k > 0 {
                lemma_pow2_adds((2 * k - 2) as nat, 2);
                k = (k - 1) as nat;
            } else {
                lemma2_to64();
            }
        }
        m >>= 2;
        proof {
            if m > 0 {
                lemma_pow2_pos(2 * k);
            }
        }
    }
    proof {
        assert(q * 1 == q && q * q * 1 == q * q && (q + 1) * (q + 1) * 1 == (q + 1) * (q + 1))
            by (nonlinear_arith);
    }
    y
}

/// Integer square root: the largest `r` with `r * r <= x`.
pub fn int_sqrt(x: u64) -> (r: u64)
    ensures
        is_isqrt(r as nat, x as nat),
{
    if x <= 1 {
        proof {
            assert(x * x == x && x < (x + 1) * (x + 1)) by (nonlinear_arith)
                requires
                    x <= 1,
            ;
        }
        return x;
    }

    let fls = (u64::BITS - 1).wrapping_sub(x.leading_zeros());
    let e = fls & !1;
    proof {
        lemma_top_bit(x);
        assert(fls & !1u32 == fls - fls % 2) by (bit_vector);
        lemma_start_power(x, e as nat);
        lemma_u64_pow2_no_overflow(e as nat);
        lemma_mul_basics(pow2(e as nat) as int);
        lemma_u64_shl_is_mul(1, e as u64);
        assert(1u64 << e == 1u64 << (e as u64)) by (bit_vector);
    }
    let m = 1u64.wrapping_shl(e);
    sqrt_digits(x, m, Ghost((e / 2) as nat))
}

/// A root of a word fits in 32 bits.
proof fn lemma_root_fits_u32(r: nat, x: nat)
    requires
        x <= u64::MAX,
        r * r <= x,
    ensures
        r <= u32::MAX,
{
    if r > u32::MAX {
        assert(r * r >= 0x1_0000_0000 * 0x1_0000_0000) by (nonlinear_arith)
            requires
                r >= 0x1_0000_0000,
        ;
    }
}

/// Integer square root of a 64-bit value, as a 32-bit result.
///
/// Values that fit in 32 bits go through `int_sqrt`; larger ones run the same
/// digit loop from their own top bit.
pub fn int_sqrt64(x: u64) -> (r: u32)
    ensures
        is_isqrt(r as nat, x as nat),
{
    if x <= u32::MAX as u64 {
        let r = int_sqrt(x);
        proof {
            lemma_root_fits_u32(r as nat, x as nat);
        }
        return r as u32;
    }

    let fls = 63u32.wrapping_sub(x.leading_zeros());
    let e = fls & !1;
    proof {
        lemma_top_bit(x);
        assert(fls & !1u32 == fls - fls % 2) by (bit_vector);
        lemma_start_power(x, e as nat);
        lemma_u64_pow2_no_overflow(e as nat);
        lemma_mul_basics(pow2(e as nat) as int);
        lemma_u64_shl_is_mul(1, e as u64);
        assert(1u64 << e == 1u64 << (e as u64)) by (bit_vector);
    }
    let m = 1u64.wrapping_shl(e);
    let y = sqrt_digits(x, m, Ghost((e / 2) as nat));
    proof {
        lemma_root_fits_u32(y as nat, x as nat);
    }
    y as u32
}

} // verus!
