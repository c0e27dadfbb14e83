//! Integer power by repeated squaring, modulo 2^64.
use vstd::prelude::*;
use vstd::arithmetic::div_mod::*;
use vstd::arithmetic::mul::*;
use vstd::arithmetic::power::*;
use vstd::arithmetic::power2::*;
use vstd::bits::*;

verus! {

/// One squaring step keeps `result * base^exp` modulo `m`: the odd bit of the
/// exponent moves into the result, the base is squared and the exponent halved.
proof fn lemma_square_step(r: int, b: int, e: nat, m: int)
    requires
        m > 0,
    ensures
        ({
            let r1 = if e % 2 == 1 { (r * b) % m } else { r };
            (r1 * pow((b * b) % m, e / 2)) % m == (r * pow(b, e)) % m
        }),
{
    let h = e / 2;
    let r1 = if e % 2 == 1 { (r * b) % m } else { r };
    // pow((b * b) % m, h) is pow(b, 2 * h) modulo m
    lemma_pow_mod_noop(b * b, h, m);
    lemma_square_is_pow2(b);
    lemma_pow_multiplies(b, 2, h);
    let x = pow(b, 2 * h);
    assert((r1 * pow((b * b) % m, h)) % m == (r1 * x) % m) by {
        lemma_mul_mod_noop_right(r1, pow((b * b) % m, h), m);
        lemma_mul_mod_noop_right(r1, x, m);
    }
    if e % 2 == 1 {
        assert((((r * b) % m) * x) % m == ((r * b) * x) % m) by {
            lemma_mul_mod_noop_left(r * b, x, m);
        }
        lemma_pow_adds(b, 2 * h, 1);
        lemma_pow1(b);
        lemma_mul_is_associative(r, b, x);
        lemma_mul_is_commutative(b, x);
        assert(e == 2 * h + 1);
    } else {
        assert(e == 2 * h);
    }
}

/// Computes `base` raised to `exp`, wrapping modulo 2^64.
pub fn int_pow(base: u64, exp: u32) -> (r: u64)
    ensures
        r == pow(base as int, exp as nat) % 0x1_0000_0000_0000_0000,
{
    let mut result: u64 = 1;
    let mut b = base;
    let mut e = exp;

    proof {
        lemma_mul_basics(pow(base as int, exp as nat));
    }
    while e != 0
        invariant
            (result * pow(b as int, e as nat)) % 0x1_0000_0000_0000_0000 == pow(
                base as int,
                exp as nat,
            ) % 0x1_0000_0000_0000_0000,
        decreases e,
    {
        proof {
            lemma_square_step(result as int, b as int, e as nat, 0x1_0000_0000_0000_0000);
            assert((e & 1) != 0 <==> e % 2 == 1) by (bit_vector);
            lemma_u32_shr_is_div(e, 1);
            lemma2_to64();
        }
        if (e & 1) != 0 {
            result = result.wrapping_mul(b);
        }
        e >>= 1;
        b = b.wrapping_mul(b);
    }

    proof {
        lemma_pow0(b as int);
        lemma_mul_basics(result as int);
        lemma_small_mod(result as nat, 0x1_0000_0000_0000_0000);
    }
    result
}

} // verus!
