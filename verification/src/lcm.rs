//! Least common multiple.
use vstd::prelude::*;
use vstd::arithmetic::div_mod::*;
use vstd::arithmetic::mul::*;
use vstd::arithmetic::power2::*;
use crate::gcd::{
    gcd,
    gcd_of,
    lemma_common_divisor_divides_gcd,
    lemma_gcd_comm,
    lemma_gcd_divides,
    lemma_gcd_scale,
    lemma_odd_part,
};

verus! {

/// The least common multiple `a / gcd(a, b) * b`, zero when either argument is.
pub open spec fn lcm_of(a: nat, b: nat) -> nat {
    if a == 0 || b == 0 {
        0
    } else {
        (a / gcd_of(a, b)) * b
    }
}

/// Law: `lcm_of(a, b) * gcd_of(a, b) == a * b` for positive arguments.
pub proof fn lemma_lcm_times_gcd(a: nat, b: nat)
    requires
        a > 0,
        b > 0,
    ensures
        lcm_of(a, b) * gcd_of(a, b) == a * b,
{
    let g = gcd_of(a, b);
    lemma_gcd_divides(a, b);
    lemma_fundamental_div_mod(a as int, g as int);
    assert(a == g * (a / g));
    lemma_mul_is_associative((a / g) as int, b as int, g as int);
    lemma_mul_is_commutative(b as int, g as int);
    lemma_mul_is_associative((a / g) as int, g as int, b as int);
    lemma_mul_is_commutative((a / g) as int, g as int);
}

/// Law: the least common multiple of positive numbers is a positive multiple
/// of both.
pub proof fn lemma_lcm_is_common_multiple(a: nat, b: nat)
    requires
        a > 0,
        b > 0,
    ensures
        lcm_of(a, b) > 0,
        lcm_of(a, b) % a == 0,
        lcm_of(a, b) % b == 0,
{
    let g = gcd_of(a, b);
    lemma_gcd_divides(a, b);
    lemma_fundamental_div_mod(a as int, g as int);
    let k = a / g;
    assert(k > 0) by {
        if k == 0 {
            lemma_mul_basics(g as int);
        }
    }
    lemma_mul_strictly_positive(k as int, b as int);
    lemma_mod_multiples_basic(k as int, b as int);
    // lcm == (b / g) * a, a multiple of a
    lemma_gcd_comm(a, b);
    lemma_fundamental_div_mod(b as int, g as int);
    let j = b / g;
    assert(k * b == j * a) by (nonlinear_arith)
        requires
            a == g * k,
            b == g * j,
    ;
    lemma_mod_multiples_basic(j as int, a as int);
}

/// Law: every positive common multiple of `a` and `b` is a multiple of their
/// least common multiple.
pub proof fn lemma_lcm_divides_common_multiple(a: nat, b: nat, c: nat)
    requires
        a > 0,
        b > 0,
        c > 0,
        c % a == 0,
        c % b == 0,
    ensures
        c % lcm_of(a, b) == 0,
{
    let g = gcd_of(a, b);
    let l = lcm_of(a, b);
    lemma_gcd_divides(a, b);
    lemma_lcm_is_common_multiple(a, b);
    lemma_lcm_times_gcd(a, b);
    lemma_mul_strictly_positive(a as int, b as int);
    // a * b divides c * b and c * a
    lemma_fundamental_div_mod(c as int, a as int);
    lemma_fundamental_div_mod(c as int, b as int);
    let i = c / a;
    let j = c / b;
    assert((c * b) % (a * b) == 0) by {
        assert(c * b == (a * b) * i) by {
            lemma_mul_is_associative(a as int, i as int, b as int);
            lemma_mul_is_commutative(i as int, b as int);
            lemma_mul_is_associative(a as int, b as int, i as int);
        }
        lemma_mod_multiples_basic(i as int, (a * b) as int);
        lemma_mul_is_commutative((a * b) as int, i as int);
    }
    assert((c * a) % (a * b) == 0) by {
        assert(c * a == (a * b) * j) by {
            lemma_mul_is_associative(b as int, j as int, a as int);
            lemma_mul_is_commutative(j as int, a as int);
            lemma_mul_is_associative(b as int, a as int, j as int);
            lemma_mul_is_commutative(b as int, a as int);
        }
        lemma_mod_multiples_basic(j as int, (a * b) as int);
        lemma_mul_is_commutative((a * b) as int, j as int);
    }
    // so a * b divides gcd(c * b, c * a) == c * gcd(b, a) == c * g
    lemma_common_divisor_divides_gcd(c * b, c * a, a * b);
    lemma_gcd_scale(c, b, a);
    lemma_gcd_comm(b, a);
    // l * g divides c * g, so l divides c
    lemma_fundamental_div_mod((c * g) as int, (l * g) as int);
    let t = (c * g) / (l * g);
    assert(c * g == (l * t) * g) by {
        lemma_mul_is_associative(l as int, g as int, t as int);
        lemma_mul_is_commutative(g as int, t as int);
        lemma_mul_is_associative(l as int, t as int, g as int);
    }
    lemma_mul_equality_converse(g as int, c as int, (l * t) as int);
    lemma_mul_is_commutative(g as int, c as int);
    lemma_mul_is_commutative(g as int, (l * t) as int);
    lemma_mod_multiples_basic(t as int, l as int);
    lemma_mul_is_commutative(l as int, t as int);
}

/// The least common multiple of two nonzero words is not a multiple of 2^64:
/// each word holds fewer than 64 factors of two, and so does the multiple
/// built from the higher power of two and both odd parts.
proof fn lemma_lcm_of_words_not_wrapped_to_zero(a: u64, b: u64)
    requires
        a != 0,
        b != 0,
    ensures
        lcm_of(a as nat, b as nat) % 0x1_0000_0000_0000_0000 != 0,
{
    lemma_odd_part(a);
    lemma_odd_part(b);
    let i = a.trailing_zeros() as nat;
    let j = b.trailing_zeros() as nat;
    let oa = (a >> a.trailing_zeros()) as int;
    let ob = (b >> b.trailing_zeros()) as int;
    let m: nat = if i >= j { i } else { j };
    let pm = pow2(m) as int;
    let pi = pow2((m - i) as nat) as int;
    let pj = pow2((m - j) as nat) as int;
    let pw = pow2((64 - m) as nat) as int;
    lemma_pow2_adds(i, (m - i) as nat);
    lemma_pow2_adds(j, (m - j) as nat);
    lemma_pow2_adds(m, (64 - m) as nat);
    lemma_pow2_unfold((64 - m) as nat);
    lemma2_to64();
    lemma_pow2_pos(m);
    lemma_pow2_pos((m - i) as nat);
    lemma_pow2_pos((m - j) as nat);
    lemma_pow2_pos((64 - m - 1) as nat);
    assert(pm * pw == 0x1_0000_0000_0000_0000);
    // a common multiple: both odd parts times the higher power of two
    let c = oa * ob * pm;
    let p2i = pow2(i) as int;
    let p2j = pow2(j) as int;
    assert(c == (ob * pi) * a) by {
        lemma_mul_is_associative(oa, p2i, pi);
        lemma_mul_is_associative(oa * ob, p2i, pi);
        lemma_mul_is_commutative(oa, ob);
        lemma_mul_is_associative(ob, oa, p2i);
        lemma_mul_is_associative(ob, oa * p2i, pi);
        lemma_mul_is_commutative(ob, oa * p2i);
        lemma_mul_is_associative(oa * p2i, ob, pi);
        lemma_mul_is_commutative(oa * p2i, ob * pi);
        lemma_mul_is_associative(ob, pi, oa * p2i);
        assert(c == oa * ob * (p2i * pi));
        assert(c == ((oa * p2i) * ob) * pi);
    }
    assert(c == (oa * pj) * b) by {
        lemma_mul_is_associative(oa * ob, p2j, pj);
        lemma_mul_is_associative(oa, ob, p2j);
        lemma_mul_is_associative(oa, ob * p2j, pj);
        lemma_mul_is_commutative(oa, ob * p2j);
        lemma_mul_is_associative(ob * p2j, oa, pj);
        lemma_mul_is_commutative(ob * p2j, oa * pj);
        assert(c == oa * ob * (p2j * pj));
    }
    lemma_mul_strictly_positive(oa, ob);
    lemma_mul_strictly_positive(oa * ob, pm);
    lemma_mul_strictly_positive(ob, pi);
    lemma_mul_strictly_positive(oa, pj);
    lemma_mod_multiples_basic(ob * pi, a as int);
    lemma_mod_multiples_basic(oa * pj, b as int);
    lemma_lcm_is_common_multiple(a as nat, b as nat);
    lemma_lcm_divides_common_multiple(a as nat, b as nat, c as nat);
    let l = lcm_of(a as nat, b as nat) as int;
    if l % 0x1_0000_0000_0000_0000 == 0 {
        lemma_fundamental_div_mod(c, l);
        lemma_fundamental_div_mod(l, 0x1_0000_0000_0000_0000);
        let t = c / l;
        let s = l / 0x1_0000_0000_0000_0000;
        assert(pm * (oa * ob) == pm * (pw * (s * t))) by (nonlinear_arith)
            requires
                c == oa * ob * pm,
                c == l * t,
                l == 0x1_0000_0000_0000_0000 * s,
                pm * pw == 0x1_0000_0000_0000_0000,
        ;
        lemma_mul_equality_converse(pm, oa * ob, pw * (s * t));
        let h = pow2((64 - m - 1) as nat) as int;
        lemma_fundamental_div_mod(oa, 2);
        lemma_fundamental_div_mod(ob, 2);
        let qa = oa / 2;
        let qb = ob / 2;
        assert(oa * ob == 2 * (2 * qa * qb + qa + qb) + 1) by (nonlinear_arith)
            requires
                oa == 2 * qa + 1,
                ob == 2 * qb + 1,
        ;
        lemma_fundamental_div_mod_converse(oa * ob, 2, 2 * qa * qb + qa + qb, 1);
        assert(pw * (s * t) == (h * (s * t)) * 2) by {
            lemma_mul_is_associative(2, h, s * t);
            lemma_mul_is_commutative(2, h * (s * t));
        }
        lemma_mod_multiples_basic(h * (s * t), 2);
    }
}

/// Least common multiple of two words, wrapping modulo 2^64; zero when either
/// argument is zero.
pub fn lcm(a: u64, b: u64) -> (r: u64)
    ensures
        r == lcm_of(a as nat, b as nat) % 0x1_0000_0000_0000_0000,
        lcm_of(a as nat, b as nat) <= u64::MAX ==> r == lcm_of(a as nat, b as nat),
        r == 0 <==> (a == 0 || b == 0),
{
    if a != 0 && b != 0 {
        let g = gcd(a, b);
        proof {
            lemma_gcd_divides(a as nat, b as nat);
            lemma_lcm_of_words_not_wrapped_to_zero(a, b);
        }
        (a / g).wrapping_mul(b)
    } else {
        0
    }
}

/// Least common multiple that is not zero when one argument is not: the other
/// argument is returned when one is zero. The fallback to `b` for a multiple
/// that wraps to zero is kept as a guard; it is never taken, since `lcm` of two
/// nonzero words is nonzero.
pub fn lcm_not_zero(a: u64, b: u64) -> (r: u64)
    ensures
        a == 0 ==> r == b,
        b == 0 ==> r == a,
        a != 0 && b != 0 ==> r == lcm_of(a as nat, b as nat) % 0x1_0000_0000_0000_0000,
        a != 0 && b != 0 && lcm_of(a as nat, b as nat) <= u64::MAX ==> r == lcm_of(
            a as nat,
            b as nat,
        ),
        r == 0 <==> (a == 0 && b == 0),
{
    let l = lcm(a, b);
    if l != 0 {
        l
    } else if b != 0 {
        b
    } else {
        a
    }
}

} // verus!
