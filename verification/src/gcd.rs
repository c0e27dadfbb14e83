//! Greatest common divisor by Stein's binary algorithm.
use vstd::prelude::*;
use vstd::arithmetic::div_mod::*;
use vstd::arithmetic::mul::*;
use vstd::arithmetic::power2::*;
use vstd::bits::*;
use vstd::std_specs::bits::*;

verus! {

/// The greatest common divisor, by Euclid's recursion: `gcd_of(a, 0) == a`,
/// and `gcd_of(0, 0) == 0`.
pub open spec fn gcd_of(a: nat, b: nat) -> nat
    decreases b,
{
    if b == 0 {
        a
    } else {
        gcd_of(b, a % b)
    }
}

/// `d` is a positive divisor of `n`.
pub open spec fn divides(d: nat, n: nat) -> bool {
    d > 0 && n % d == 0
}

/// A positive divisor of a positive number is no larger than it.
pub proof fn lemma_divisor_le(d: nat, n: nat)
    requires
        divides(d, n),
        n > 0,
    ensures
        d <= n,
{
    lemma_fundamental_div_mod(n as int, d as int);
    if n / d == 0 {
        assert(n == d * (n / d) + n % d);
        lemma_mul_basics(d as int);
    } else {
        lemma_mul_inequality(1, (n / d) as int, d as int);
        lemma_mul_is_commutative((n / d) as int, d as int);
    }
}

/// If `d` divides `x` and `y`, it divides `x - q * y`.
proof fn lemma_divides_sub_multiple(x: nat, y: nat, q: nat, d: nat)
    requires
        d > 0,
        x % d == 0,
        y % d == 0,
        x >= q * y,
    ensures
        ((x - q * y) as nat) % d == 0,
{
    lemma_mul_mod_noop_right(q as int, y as int, d as int);
    lemma_mul_basics(q as int);
    lemma_small_mod(0, d);
    assert((q * y) % d == 0);
    lemma_sub_mod_noop(x as int, (q * y) as int, d as int);
}

/// If `d` divides `x` and `y`, it divides `x + q * y`.
proof fn lemma_divides_add_multiple(x: nat, y: nat, q: nat, d: nat)
    requires
        d > 0,
        x % d == 0,
        y % d == 0,
    ensures
        (x + q * y) % d == 0,
{
    lemma_mul_mod_noop_right(q as int, y as int, d as int);
    lemma_mul_basics(q as int);
    lemma_small_mod(0, d);
    assert((q * y) % d == 0);
    lemma_add_mod_noop(x as int, (q * y) as int, d as int);
}

/// `gcd_of(a, b)` divides both arguments, and is positive unless both are zero.
pub proof fn lemma_gcd_divides(a: nat, b: nat)
    requires
        a > 0 || b > 0,
    ensures
        gcd_of(a, b) > 0,
        a % gcd_of(a, b) == 0,
        b % gcd_of(a, b) == 0,
    decreases b,
{
    if b == 0 {
        lemma_mod_self_0(a as int);
    } else {
        let r = a % b;
        lemma_gcd_divides(b, r);
        let g = gcd_of(a, b);
        lemma_fundamental_div_mod(a as int, b as int);
        lemma_mul_is_commutative(b as int, (a / b) as int);
        lemma_divides_add_multiple(r, b, a / b, g);
    }
}

/// Every common divisor of `a` and `b` divides `gcd_of(a, b)`.
pub proof fn lemma_common_divisor_divides_gcd(a: nat, b: nat, d: nat)
    requires
        d > 0,
        a % d == 0,
        b % d == 0,
    ensures
        gcd_of(a, b) % d == 0,
    decreases b,
{
    if b > 0 {
        lemma_fundamental_div_mod(a as int, b as int);
        lemma_mul_is_commutative(b as int, (a / b) as int);
        lemma_divides_sub_multiple(a, b, a / b, d);
        lemma_common_divisor_divides_gcd(b, a % b, d);
    }
}

/// A positive common divisor that every common divisor divides is the gcd.
pub proof fn lemma_gcd_unique(a: nat, b: nat, g: nat)
    requires
        g > 0,
        a % g == 0,
        b % g == 0,
        forall|d: nat| d > 0 && #[trigger] (a % d) == 0 && b % d == 0 ==> g % d == 0,
    ensures
        g == gcd_of(a, b),
{
    let h = gcd_of(a, b);
    if a == 0 && b == 0 {
        assert(0nat % (g + 1) == 0) by {
            lemma_small_mod(0, g + 1);
        }
        assert(g % (g + 1) == 0);
        lemma_small_mod(g, g + 1);
    } else {
        lemma_gcd_divides(a, b);
        lemma_common_divisor_divides_gcd(a, b, g);
        assert(g % h == 0);
        lemma_divisor_le(g, h);
        lemma_divisor_le(h, g);
    }
}

/// The gcd is symmetric.
pub proof fn lemma_gcd_comm(a: nat, b: nat)
    ensures
        gcd_of(a, b) == gcd_of(b, a),
{
    if a == 0 && b == 0 {
    } else {
        lemma_gcd_divides(a, b);
        let g = gcd_of(a, b);
        assert forall|d: nat| d > 0 && #[trigger] (b % d) == 0 && a % d == 0 implies g % d == 0 by {
            lemma_common_divisor_divides_gcd(a, b, d);
        }
        lemma_gcd_unique(b, a, g);
    }
}

/// Subtracting the smaller argument keeps the gcd.
pub proof fn lemma_gcd_sub(a: nat, b: nat)
    requires
        a >= b,
        b > 0,
    ensures
        gcd_of((a - b) as nat, b) == gcd_of(a, b),
{
    lemma_mod_sub_multiples_vanish(a as int, b as int);
    assert(gcd_of((a - b) as nat, b) == gcd_of(b, ((a - b) as nat) % b));
    assert(gcd_of(a, b) == gcd_of(b, a % b));
}

/// A gcd with an argument equal to the other is that argument.
pub proof fn lemma_gcd_self(a: nat)
    ensures
        gcd_of(a, a) == a,
{
    if a > 0 {
        lemma_mod_self_0(a as int);
        assert(gcd_of(a, a) == gcd_of(a, 0));
    }
}

/// Every positive divisor of an odd number is odd.
pub proof fn lemma_divisor_of_odd_is_odd(d: nat, b: nat)
    requires
        divides(d, b),
        b % 2 == 1,
    ensures
        d % 2 == 1,
{
    if d % 2 == 0 {
        lemma_fundamental_div_mod(d as int, 2);
        lemma_fundamental_div_mod(b as int, d as int);
        let j = d / 2;
        let k = b / d;
        assert(b == d * k);
        assert(d == 2 * j);
        lemma_mul_is_associative(2, j as int, k as int);
        lemma_mod_multiples_basic((j * k) as int, 2);
        lemma_mul_is_commutative(2, (j * k) as int);
    }
}

/// An odd divisor of `2 * a` divides `a`.
pub proof fn lemma_odd_divisor_of_double(d: nat, a: nat)
    requires
        d % 2 == 1,
        (2 * a) % d == 0,
    ensures
        a % d == 0,
{
    lemma_fundamental_div_mod(a as int, d as int);
    let q = a / d;
    let r = a % d;
    assert(2 * a == d * (2 * q) + 2 * r) by {
        lemma_mul_is_distributive_add(2, (d * q) as int, r as int);
        lemma_mul_is_associative(2, d as int, q as int);
        lemma_mul_is_commutative(2, d as int);
        lemma_mul_is_associative(d as int, 2, q as int);
    }
    lemma_mod_multiples_vanish((2 * q) as int, (2 * r) as int, d as int);
    if 2 * r >= d {
        lemma_fundamental_div_mod_converse((2 * r) as int, d as int, 1, (2 * r - d) as int);
        assert(2 * r == d);
        assert(d % 2 == 0);
    } else {
        lemma_small_mod((2 * r) as nat, d);
    }
}

/// Doubling one argument does not change its gcd with an odd number.
pub proof fn lemma_gcd_double_odd(a: nat, b: nat)
    requires
        b % 2 == 1,
    ensures
        gcd_of(2 * a, b) == gcd_of(a, b),
{
    lemma_gcd_divides(a, b);
    let g = gcd_of(a, b);
    assert((2 * a) % g == 0) by {
        lemma_divides_add_multiple(a, a, 1, g);
    }
    assert forall|d: nat| d > 0 && #[trigger] ((2 * a) % d) == 0 && b % d == 0 implies g % d
        == 0 by {
        lemma_divisor_of_odd_is_odd(d, b);
        lemma_odd_divisor_of_double(d, a);
        lemma_common_divisor_divides_gcd(a, b, d);
    }
    lemma_gcd_unique(2 * a, b, g);
}

/// Multiplying one argument by a power of two does not change its gcd with an
/// odd number.
pub proof fn lemma_gcd_pow2_odd(a: nat, k: nat, b: nat)
    requires
        b % 2 == 1,
    ensures
        gcd_of(a * pow2(k), b) == gcd_of(a, b),
    decreases k,
{
    if k == 0 {
        lemma2_to64();
        lemma_mul_basics(a as int);
    } else {
        lemma_pow2_unfold(k);
        lemma_pow2_pos((k - 1) as nat);
        lemma_gcd_pow2_odd(a, (k - 1) as nat, b);
        let x = a * pow2((k - 1) as nat);
        assert(a * pow2(k) == 2 * x) by {
            lemma_mul_is_associative(a as int, 2, pow2((k - 1) as nat) as int);
            lemma_mul_is_commutative(a as int, 2);
            lemma_mul_is_associative(2, a as int, pow2((k - 1) as nat) as int);
        }
        lemma_gcd_double_odd(x, b);
    }
}

/// Scaling both arguments scales the gcd.
pub proof fn lemma_gcd_scale(k: nat, x: nat, y: nat)
    requires
        k > 0,
    ensures
        gcd_of(k * x, k * y) == k * gcd_of(x, y),
    decreases y,
{
    if y == 0 {
        lemma_mul_basics(k as int);
    } else {
        lemma_mul_strictly_positive(k as int, y as int);
        lemma_fundamental_div_mod(x as int, y as int);
        let q = x / y;
        let r = x % y;
        assert(k * x == q * (k * y) + k * r) by {
            lemma_mul_is_distributive_add(k as int, (y * q) as int, r as int);
            lemma_mul_is_associative(k as int, y as int, q as int);
            lemma_mul_is_commutative((k * y) as int, q as int);
        }
        assert(k * r < k * y) by {
            lemma_mul_strict_inequality(r as int, y as int, k as int);
            lemma_mul_is_commutative(r as int, k as int);
            lemma_mul_is_commutative(y as int, k as int);
        }
        lemma_fundamental_div_mod_converse((k * x) as int, (k * y) as int, q as int, (k * r) as int);
        lemma_gcd_scale(k, y, r);
    }
}

/// Splitting `x` at bit `m` when its low `m` bits are clear.
proof fn lemma_low_bits_clear(x: u64, m: u64)
    requires
        m < 64,
        x << ((64 - m) as u64) == 0,
    ensures
        x == (x >> m) * pow2(m as nat),
{
    assert((x >> m) << m == x) by (bit_vector)
        requires
            m < 64,
            x << ((64 - m) as u64) == 0,
    ;
    lemma_u64_shr_is_div(x, m);
    lemma_pow2_pos(m as nat);
    lemma_fundamental_div_mod(x as int, pow2(m as nat) as int);
    lemma_mul_is_commutative(pow2(m as nat) as int, (x as nat / pow2(m as nat)) as int);
    lemma_u64_shl_is_mul(x >> m, m);
}

/// A nonzero word is its odd part times a power of two given by its trailing zeros.
pub(crate) proof fn lemma_odd_part(x: u64)
    requires
        x != 0,
    ensures
        x.trailing_zeros() < 64,
        x << ((64 - x.trailing_zeros()) as u64) == 0,
        (x >> x.trailing_zeros()) % 2 == 1,
        x == (x >> x.trailing_zeros()) * pow2(x.trailing_zeros() as nat),
{
    axiom_u64_trailing_zeros(x);
    let t = x.trailing_zeros();
    let t64 = t as u64;
    assert((x >> t64) & 1 == 1 ==> (x >> t64) % 2 == 1) by (bit_vector);
    lemma_low_bits_clear(x, t64);
    assert(x >> t == x >> t64);
}

/// The gcd after the first step of the binary algorithm: the common power of
/// two is set apart and the second argument is made odd.
proof fn lemma_binary_gcd_start(a: u64, b: u64)
    requires
        a != 0,
        b != 0,
    ensures
        (a | b).trailing_zeros() < 64,
        (b >> b.trailing_zeros()) % 2 == 1,
        gcd_of(a as nat, (b >> b.trailing_zeros()) as nat) * pow2((a | b).trailing_zeros() as nat)
            == gcd_of(a as nat, b as nat),
{
    let x = a | b;
    assert(a != 0 ==> a | b != 0) by (bit_vector);
    axiom_u64_trailing_zeros(x);
    let m = x.trailing_zeros() as u64;
    let pm = pow2(m as nat);
    assert(a << ((64 - m) as u64) == 0 && b << ((64 - m) as u64) == 0) by (bit_vector)
        requires
            m < 64,
            (a | b) << ((64 - m) as u64) == 0,
    ;
    assert((a >> m) % 2 == 1 || (b >> m) % 2 == 1) by (bit_vector)
        requires
            ((a | b) >> m) & 1 == 1,
    ;
    lemma_low_bits_clear(a, m);
    lemma_low_bits_clear(b, m);
    let a1 = (a >> m) as nat;
    let b1 = (b >> m) as nat;
    lemma_pow2_pos(m as nat);
    // gcd(a, b) == 2^m * gcd(a1, b1)
    lemma_mul_is_commutative(a1 as int, pm as int);
    lemma_mul_is_commutative(b1 as int, pm as int);
    lemma_gcd_scale(pm, a1, b1);
    // the odd part of b
    lemma_odd_part(b);
    let t = b.trailing_zeros() as u64;
    let bb = (b >> t) as nat;
    assert(t >= m) by (bit_vector)
        requires
            t < 64,
            m < 64,
            b << ((64 - m) as u64) == 0,
            (b >> t) & 1 == 1,
    ;
    let d = (t - m) as nat;
    // b1 == bb * 2^(t - m)
    assert(b1 == bb * pow2(d)) by {
        lemma_pow2_adds(d, m as nat);
        lemma_mul_is_associative(bb as int, pow2(d) as int, pm as int);
        lemma_mul_equality_converse(pm as int, b1 as int, (bb * pow2(d)) as int);
        lemma_mul_is_commutative(pm as int, b1 as int);
        lemma_mul_is_commutative(pm as int, (bb * pow2(d)) as int);
    }
    // gcd(a, bb) == gcd(a1, bb)
    lemma_gcd_comm(a as nat, bb);
    lemma_gcd_pow2_odd(a1, m as nat, bb);
    if a1 % 2 == 1 {
        lemma_gcd_comm(a1, b1);
        lemma_gcd_pow2_odd(bb, d, a1);
        lemma_gcd_comm(bb, a1);
    } else {
        assert(b1 % 2 == 1);
        if d > 0 {
            lemma_pow2_unfold(d);
            lemma_mul_is_associative(bb as int, 2, pow2((d - 1) as nat) as int);
            lemma_mul_is_commutative(bb as int, 2);
            lemma_mul_is_associative(2, bb as int, pow2((d - 1) as nat) as int);
            lemma_mod_multiples_basic((bb * pow2((d - 1) as nat)) as int, 2);
            lemma_mul_is_commutative(2, (bb * pow2((d - 1) as nat)) as int);
        }
        assert(d == 0);
        lemma2_to64();
    }
    lemma_mul_is_commutative(pm as int, gcd_of(a1, b1) as int);
}

/// Greatest common divisor of two words, by Stein's binary algorithm.
///
/// When either argument is zero the result is the other one.
pub fn gcd(a: u64, b: u64) -> (g: u64)
    ensures
        g == gcd_of(a as nat, b as nat),
{
    let r = a | b;

    if a == 0 || b == 0 {
        proof {
            assert(a == 0 ==> a | b == b) by (bit_vector);
            assert(b == 0 ==> a | b == a) by (bit_vector);
            if a == 0 && b != 0 {
                lemma_small_mod(0, b as nat);
                assert(gcd_of(0, b as nat) == gcd_of(b as nat, 0));
            }
        }
        return r;
    }

    proof {
        lemma_binary_gcd_start(a, b);
        lemma_gcd_divides(a as nat, b as nat);
        lemma_divisor_le(gcd_of(a as nat, b as nat), a as nat);
    }

    let shift = r.trailing_zeros();
    let mut x = a;
    let mut y = b >> b.trailing_zeros();

    loop
        invariant
            x > 0,
            y > 0,
            y % 2 == 1,
            shift < 64,
            shift == (a | b).trailing_zeros(),
            gcd_of(x as nat, y as nat) * pow2(shift as nat) == gcd_of(a as nat, b as nat),
            gcd_of(a as nat, b as nat) <= u64::MAX,
        decreases x + y,
    {
        let ghost x_before = x;
        proof {
            lemma_odd_part(x);
            lemma_gcd_pow2_odd((x >> x.trailing_zeros()) as nat, x.trailing_zeros() as nat, y as nat);
        }
        x >>= x.trailing_zeros();
        assert(x <= x_before) by {
            lemma_pow2_pos(x_before.trailing_zeros() as nat);
            lemma_mul_increases(pow2(x_before.trailing_zeros() as nat) as int, x as int);
            lemma_mul_is_commutative(pow2(x_before.trailing_zeros() as nat) as int, x as int);
        }

        if x == y {
            proof {
                lemma_gcd_self(x as nat);
                lemma_u64_shl_is_mul(x, shift as u64);
                let s64 = shift as u64;
                assert(x << shift == x << s64) by (bit_vector)
                    requires
                        s64 == shift,
                ;
            }
            return x << shift;
        }

        if x < y {
            proof {
                lemma_gcd_comm(x as nat, y as nat);
            }
            core::mem::swap(&mut x, &mut y);
        }

        proof {
            lemma_gcd_sub(x as nat, y as nat);
        }
        x = x.wrapping_sub(y);
    }
}

} // verus!
