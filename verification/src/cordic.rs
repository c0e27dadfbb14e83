//! CORDIC rotation: the i/q coordinates of a unit vector at a given angle in
//! degrees, scaled by 2^16.
use vstd::prelude::*;
use vstd::arithmetic::div_mod::*;
use vstd::arithmetic::power2::*;
use vstd::bits::lemma_u32_shr_is_div;
use vstd::wrapping::i32_specs;

verus! {

/// The cosine and sine of an angle, scaled by 2^16.
#[derive(Clone, Copy, Debug, PartialEq, Eq, Structural)]
pub struct CordicIq {
    pub i: i32,
    pub q: i32,
}

/// Initial vector length, scaled so that the rotations end at 2^16.
const CORDIC_ANGLE_GEN: i32 = 39797;

/// Fixed point precision, in bits.
const CORDIC_PRECISION_SHIFT: u32 = 16;

/// Number of rotations.
const CORDIC_NUM_ITER: usize = 18;

/// `atan(2^-k)` in degrees, scaled by 2^16.
pub const ARCTAN_TABLE: [i32; 18] = [
    2949120,
    1740967,
    919879,
    466945,
    234379,
    117304,
    58666,
    29335,
    14668,
    7334,
    3667,
    1833,
    917,
    458,
    229,
    115,
    57,
    29,
];

/// Entry `k` of the arctangent table.
pub open spec fn arctan(k: int) -> i32 {
    ARCTAN_TABLE@[k]
}

/// Rounding of a fixed point value to the nearest integer, halves away from
/// zero; `i32::MIN` gives 32768.
pub open spec fn cordic_float_spec(x: i32) -> int {
    if x >= 0 {
        (x / 32768 + 1) / 2
    } else if x > i32::MIN {
        -(((-x) / 32768 + 1) / 2)
    } else {
        32768
    }
}

/// `x` in fixed point: shifted left by 16, wrapping.
pub fn cordic_fixed(x: i32) -> (r: i32)
    ensures
        r == x << 16,
        -32768 <= x < 32768 ==> r == x * 65536,
{
    proof {
        assert(x << (16u32 % 32) == x << 16u32) by (bit_vector);
        assert(-32768 <= x < 32768 ==> x << 16u32 == x * 65536) by (bit_vector);
    }
    x.wrapping_shl(CORDIC_PRECISION_SHIFT)
}

/// A fixed point value rounded to the nearest integer.
pub fn cordic_float(x: i32) -> (r: i32)
    ensures
        r == cordic_float_spec(x),
{
    if x >= 0 {
        proof {
            assert(x >= 0 ==> (x >> 15u32) == x / 32768) by (bit_vector);
            assert(x >> (15u32 % 32) == x >> 15u32) by (bit_vector);
        }
        let v = x.wrapping_shr(CORDIC_PRECISION_SHIFT - 1).wrapping_add(1);
        proof {
            assert(v >= 1 ==> (v >> 1u32) == v / 2) by (bit_vector);
            assert(v >> (1u32 % 32) == v >> 1u32) by (bit_vector);
        }
        v.wrapping_shr(1)
    } else {
        let neg_x = 0i32.wrapping_sub(x);
        proof {
            assert(neg_x >> (15u32 % 32) == neg_x >> 15u32) by (bit_vector);
            if x > i32::MIN {
                assert(neg_x >= 0 ==> (neg_x >> 15u32) == neg_x / 32768) by (bit_vector);
            } else {
                assert(neg_x == i32::MIN);
                assert((-2147483648i32) >> 15u32 == -65536i32) by (bit_vector);
            }
        }
        let v = neg_x.wrapping_shr(CORDIC_PRECISION_SHIFT - 1).wrapping_add(1);
        proof {
            assert(v >> (1u32 % 32) == v >> 1u32) by (bit_vector);
            if x > i32::MIN {
                assert(v >= 1 ==> (v >> 1u32) == v / 2) by (bit_vector);
            } else {
                assert(v == -65535i32 ==> (v >> 1u32) == -32768i32) by (bit_vector);
            }
        }
        let val = v.wrapping_shr(1);
        0i32.wrapping_sub(val)
    }
}

/// Remainder of truncating division by a positive divisor: it takes the sign
/// of the dividend.
pub open spec fn rem_trunc(x: i32, d: i32) -> i32 {
    if x >= 0 {
        (x % d) as i32
    } else {
        (-((-(x as int)) % (d as int))) as i32
    }
}

/// The angle, in fixed point, brought into `[-90, 90]` degrees (up to
/// rounding), with the sign that the result must be multiplied by: the angle
/// is reduced into `(-180, 180]` by adding, reducing modulo and subtracting
/// 180 degrees towards its own sign, then turned by 180 degrees when it lies
/// beyond 90 degrees either way.
pub open spec fn cordic_normalize(theta: i32) -> (i32, i32) {
    let t1 = theta << 16;
    let term1: i32 = if t1 < 0 {
        -11796480i32
    } else {
        11796480i32
    };
    let t2 = i32_specs::wrapping_sub(
        rem_trunc(i32_specs::wrapping_add(t1, term1), 23592960),
        term1,
    );
    if cordic_float_spec(t2) > 90 {
        (i32_specs::wrapping_sub(t2, 11796480), -1i32)
    } else if cordic_float_spec(t2) < -90 {
        (i32_specs::wrapping_add(t2, 11796480), -1i32)
    } else {
        (t2, 1i32)
    }
}

/// Rotations `k` to 17 of the vector `(ci, cq)`, turned at step `k` by
/// `atan(2^-k)` towards the target angle `theta` from the current `angle`:
/// the final vector and the angle it was turned to.
pub open spec fn cordic_rotate(theta: i32, k: nat, ci: i32, cq: i32, angle: i32) -> (i32, i32, i32)
    decreases 18 - k,
{
    if k >= 18 {
        (ci, cq, angle)
    } else if theta > angle {
        cordic_rotate(
            theta,
            k + 1,
            i32_specs::wrapping_sub(ci, cq >> (k as u32)),
            i32_specs::wrapping_add(cq, ci >> (k as u32)),
            i32_specs::wrapping_add(angle, arctan(k as int)),
        )
    } else {
        cordic_rotate(
            theta,
            k + 1,
            i32_specs::wrapping_add(ci, cq >> (k as u32)),
            i32_specs::wrapping_sub(cq, ci >> (k as u32)),
            i32_specs::wrapping_sub(angle, arctan(k as int)),
        )
    }
}

/// The coordinates for angle `theta` in degrees: the normalized angle is
/// reached by 18 rotations from `(CORDIC_ANGLE_GEN, 0)` and the result takes
/// the sign of the normalization.
pub open spec fn cordic_iq_of(theta: i32) -> CordicIq {
    let (t, signx) = cordic_normalize(theta);
    let (ci, cq, _) = cordic_rotate(t, 0, 39797, 0, 0);
    CordicIq { i: i32_specs::wrapping_mul(ci, signx), q: i32_specs::wrapping_mul(cq, signx) }
}

/// Calculates the i/q coordinates, scaled by 2^16, of the unit vector at angle
/// `theta` in degrees.
pub fn cordic_calc_iq(theta: i32) -> (r: CordicIq)
    ensures
        r == cordic_iq_of(theta),
{
    let mut coord_i: i32 = CORDIC_ANGLE_GEN;
    let mut coord_q: i32 = 0;
    let mut angle: i32 = 0;
    let mut signx: i32 = 1;

    let mut theta = cordic_fixed(theta);
    let signtheta: i32 = if theta < 0 {
        -1
    } else {
        1
    };
    let term1 = cordic_fixed(180).wrapping_mul(signtheta);
    let term2 = cordic_fixed(360);
    let sum = theta.wrapping_add(term1);
    let rem = match sum.checked_rem(term2) {
        Some(v) => v,
        None => 0,
    };
    theta = rem.wrapping_sub(term1);

    if cordic_float(theta) > 90 {
        theta = theta.wrapping_sub(cordic_fixed(180));
        signx = -1;
    } else if cordic_float(theta) < -90 {
        theta = theta.wrapping_add(cordic_fixed(180));
        signx = -1;
    }

    let ghost target = cordic_rotate(theta, 0, coord_i, coord_q, angle);
    for iter in 0..CORDIC_NUM_ITER
        invariant
            cordic_rotate(theta, iter as nat, coord_i, coord_q, angle) == target,
    {
        let shift = iter as u32;
        proof {
            assert(coord_q >> (shift % 32) == coord_q >> shift) by (bit_vector)
                requires
                    shift < 18,
            ;
            assert(coord_i >> (shift % 32) == coord_i >> shift) by (bit_vector)
                requires
                    shift < 18,
            ;
        }
        let (valtmp, q, a) = if theta > angle {
            (
                coord_i.wrapping_sub(coord_q.wrapping_shr(shift)),
                coord_q.wrapping_add(coord_i.wrapping_shr(shift)),
                angle.wrapping_add(ARCTAN_TABLE[iter]),
            )
        } else {
            (
                coord_i.wrapping_add(coord_q.wrapping_shr(shift)),
                coord_q.wrapping_sub(coord_i.wrapping_shr(shift)),
                angle.wrapping_sub(ARCTAN_TABLE[iter]),
            )
        };
        coord_q = q;
        angle = a;
        coord_i = valtmp;
    }

    coord_i = coord_i.wrapping_mul(signx);
    coord_q = coord_q.wrapping_mul(signx);

    CordicIq { i: coord_i, q: coord_q }
}

/// The angle reduced into `[-180, 180]` degrees, as the normalization does it:
/// 180 is added towards the sign of the angle, the remainder by 360 taken with
/// that sign, and the 180 taken back.
pub open spec fn reduced_degrees(theta: int) -> int {
    if theta >= 0 {
        (theta + 180) % 360 - 180
    } else {
        180 - (180 - theta) % 360
    }
}

/// The normalization in whole degrees: the reduced angle, turned by 180 degrees
/// when it lies beyond 90 either way, and the sign of the result.
pub open spec fn normalized_degrees(theta: int) -> (int, int) {
    let v = reduced_degrees(theta);
    if v > 90 {
        (v - 180, -1)
    } else if v < -90 {
        (v + 180, -1)
    } else {
        (v, 1)
    }
}

/// For an angle whose fixed point values do not wrap, the normalization
/// works in whole degrees, and the target angle lies within 90 degrees of zero.
pub proof fn lemma_cordic_normalize_degrees(theta: i32)
    requires
        -32588 <= theta <= 32587,
    ensures
        cordic_normalize(theta).0 == normalized_degrees(theta as int).0 * 65536,
        cordic_normalize(theta).1 == normalized_degrees(theta as int).1,
        -90 <= normalized_degrees(theta as int).0 <= 90,
{
    let t = theta as int;
    assert(theta << 16 == theta * 65536) by (bit_vector)
        requires
            -32768 <= theta < 32768,
    ;
    let f: int = 65536;
    let a: int = if t >= 0 { t + 180 } else { t - 180 };
    assert(i32_specs::wrapping_add(theta << 16, if t >= 0 { 11796480i32 } else { -11796480i32 })
        == a * f);
    let x = (a * f) as i32;
    let r: int = if a >= 0 { (a % 360) * f } else { -(((-a) % 360) * f) };
    if a >= 0 {
        lemma_scaled_mod(a, f);
    } else {
        lemma_scaled_mod(-a, f);
    }
    assert(rem_trunc(x, 23592960) == r);
    let v = reduced_degrees(t);
    assert(i32_specs::wrapping_sub(rem_trunc(x, 23592960), if t >= 0 { 11796480i32 } else { -11796480i32 })
        == v * f);
    let y = (v * f) as i32;
    assert(cordic_float_spec(y) == v);
}

/// `(a * f) % (360 * f) == (a % 360) * f` for `a >= 0` and `f > 0`.
proof fn lemma_scaled_mod(a: int, f: int)
    requires
        a >= 0,
        f > 0,
    ensures
        (a * f) % (360 * f) == (a % 360) * f,
{
    let q = a / 360;
    let r = a % 360;
    assert(a * f == q * (360 * f) + r * f && 0 <= r * f < 360 * f) by (nonlinear_arith)
        requires
            a == 360 * q + r,
            0 <= r < 360,
            f > 0,
    ;
    vstd::arithmetic::div_mod::lemma_fundamental_div_mod_converse(a * f, 360 * f, q, r * f);
}

/// Law: a full turn does not change the result, for angles whose fixed point
/// values do not wrap.
pub proof fn lemma_cordic_full_turn(theta: i32)
    requires
        -32588 <= theta <= 32227,
    ensures
        cordic_iq_of(theta) == cordic_iq_of((theta + 360) as i32),
{
    let theta2 = (theta + 360) as i32;
    lemma_cordic_normalize_degrees(theta);
    lemma_cordic_normalize_degrees(theta2);
    lemma_normalized_degrees_period(theta as int);
    assert(cordic_normalize(theta) == cordic_normalize(theta2));
}

/// The normalization in degrees repeats every full turn.
proof fn lemma_normalized_degrees_period(t: int)
    ensures
        normalized_degrees(t) == normalized_degrees(t + 360),
{
    if t >= 0 {
        assert((t + 540) % 360 == (t + 180) % 360) by {
            vstd::arithmetic::div_mod::lemma_mod_add_multiples_vanish(t + 180, 360);
        }
    } else if t + 360 < 0 {
        assert((180 - t) % 360 == (-180 - t) % 360) by {
            vstd::arithmetic::div_mod::lemma_mod_add_multiples_vanish(-180 - t, 360);
        }
    } else {
        let u = 180 - t;
        let w = t + 540;
        if u < 360 {
            vstd::arithmetic::div_mod::lemma_small_mod(u as nat, 360);
            vstd::arithmetic::div_mod::lemma_fundamental_div_mod_converse(w, 360, 1, w - 360);
        } else {
            vstd::arithmetic::div_mod::lemma_fundamental_div_mod_converse(u, 360, 1, u - 360);
            if w < 360 {
                vstd::arithmetic::div_mod::lemma_small_mod(w as nat, 360);
            } else {
                vstd::arithmetic::div_mod::lemma_fundamental_div_mod_converse(w, 360, 1, w - 360);
            }
        }
    }
}

/// A bound on the size of both coordinates before rotation `k`: each rotation
/// adds to a coordinate at most the other one shifted right by `k`, rounded
/// away from zero.
pub open spec fn coord_bound(k: nat) -> int
    decreases k,
{
    if k == 0 {
        39797
    } else {
        let m = coord_bound((k - 1) as nat);
        m + m / (pow2((k - 1) as nat) as int) + 1
    }
}

/// The coordinate bounds grow with each rotation and stay within 189780.
proof fn lemma_coord_bound_range(k: nat)
    requires
        k <= 18,
    ensures
        39797 <= coord_bound(k) <= 189780,
    decreases 18 - k,
{
    if k < 18 {
        lemma_coord_bound_range(k + 1);
        lemma_pow2_pos(k);
        lemma_coord_bound_at_least_start(k);
        lemma_div_pos_is_pos(coord_bound(k), pow2(k) as int);
    } else {
        lemma_coord_bound_values();
    }
}

/// The coordinate bounds before each rotation and after the last one.
proof fn lemma_coord_bound_values()
    ensures
        coord_bound(0) == 39797,
        coord_bound(1) == 79595,
        coord_bound(2) == 119393,
        coord_bound(3) == 149242,
        coord_bound(4) == 167898,
        coord_bound(5) == 178392,
        coord_bound(6) == 183967,
        coord_bound(7) == 186842,
        coord_bound(8) == 188302,
        coord_bound(9) == 189038,
        coord_bound(10) == 189408,
        coord_bound(11) == 189593,
        coord_bound(12) == 189686,
        coord_bound(13) == 189733,
        coord_bound(14) == 189757,
        coord_bound(15) == 189769,
        coord_bound(16) == 189775,
        coord_bound(17) == 189778,
        coord_bound(18) == 189780,
{
    lemma2_to64();
    assert(coord_bound(0) == 39797);
    assert(coord_bound(1) == coord_bound(0) + coord_bound(0) / (pow2(0) as int) + 1);
    assert(coord_bound(1) == 79595);
    assert(coord_bound(2) == coord_bound(1) + coord_bound(1) / (pow2(1) as int) + 1);
    assert(coord_bound(2) == 119393);
    assert(coord_bound(3) == coord_bound(2) + coord_bound(2) / (pow2(2) as int) + 1);
    assert(coord_bound(3) == 149242);
    assert(coord_bound(4) == coord_bound(3) + coord_bound(3) / (pow2(3) as int) + 1);
    assert(coord_bound(4) == 167898);
    assert(coord_bound(5) == coord_bound(4) + coord_bound(4) / (pow2(4) as int) + 1);
    assert(coord_bound(5) == 178392);
    assert(coord_bound(6) == coord_bound(5) + coord_bound(5) / (pow2(5) as int) + 1);
    assert(coord_bound(6) == 183967);
    assert(coord_bound(7) == coord_bound(6) + coord_bound(6) / (pow2(6) as int) + 1);
    assert(coord_bound(7) == 186842);
    assert(coord_bound(8) == coord_bound(7) + coord_bound(7) / (pow2(7) as int) + 1);
    assert(coord_bound(8) == 188302);
    assert(coord_bound(9) == coord_bound(8) + coord_bound(8) / (pow2(8) as int) + 1);
    assert(coord_bound(9) == 189038);
    assert(coord_bound(10) == coord_bound(9) + coord_bound(9) / (pow2(9) as int) + 1);
    assert(coord_bound(10) == 189408);
    assert(coord_bound(11) == coord_bound(10) + coord_bound(10) / (pow2(10) as int) + 1);
    assert(coord_bound(11) == 189593);
    assert(coord_bound(12) == coord_bound(11) + coord_bound(11) / (pow2(11) as int) + 1);
    assert(coord_bound(12) == 189686);
    assert(coord_bound(13) == coord_bound(12) + coord_bound(12) / (pow2(12) as int) + 1);
    assert(coord_bound(13) == 189733);
    assert(coord_bound(14) == coord_bound(13) + coord_bound(13) / (pow2(13) as int) + 1);
    assert(coord_bound(14) == 189757);
    assert(coord_bound(15) == coord_bound(14) + coord_bound(14) / (pow2(14) as int) + 1);
    assert(coord_bound(15) == 189769);
    assert(coord_bound(16) == coord_bound(15) + coord_bound(15) / (pow2(15) as int) + 1);
    assert(coord_bound(16) == 189775);
    assert(coord_bound(17) == coord_bound(16) + coord_bound(16) / (pow2(16) as int) + 1);
    assert(coord_bound(17) == 189778);
    assert(coord_bound(18) == coord_bound(17) + coord_bound(17) / (pow2(17) as int) + 1);
    assert(coord_bound(18) == 189780);
}

/// The coordinate bounds are at least the starting length.
proof fn lemma_coord_bound_at_least_start(k: nat)
    ensures
        coord_bound(k) >= 39797,
    decreases k,
{
    if k > 0 {
        lemma_coord_bound_at_least_start((k - 1) as nat);
        lemma_pow2_pos((k - 1) as nat);
        lemma_div_pos_is_pos(coord_bound((k - 1) as nat), pow2((k - 1) as nat) as int);
    }
}

/// An arithmetic right shift of a value within `[-m, m]` lies within the shift
/// of `m`, one more below.
proof fn lemma_shr_within(q: i32, m: i32, k: u32)
    by (bit_vector)
    requires
        0 <= m,
        -m <= q,
        q <= m,
        k < 32,
    ensures
        -((m as u32) >> k) - 1 <= q >> k,
        q >> k <= (m as u32) >> k,
{
}

/// The rotations from step `k` on keep both coordinates within the final bound,
/// and none of their additions wraps.
proof fn lemma_rotate_bounded(theta: i32, k: nat, ci: i32, cq: i32, angle: i32)
    requires
        k <= 18,
        -coord_bound(k) <= ci <= coord_bound(k),
        -coord_bound(k) <= cq <= coord_bound(k),
    ensures
        -189780 <= cordic_rotate(theta, k, ci, cq, angle).0 <= 189780,
        -189780 <= cordic_rotate(theta, k, ci, cq, angle).1 <= 189780,
    decreases 18 - k,
{
    lemma_coord_bound_range(k);
    if k < 18 {
        lemma_coord_bound_range(k + 1);
        let m = coord_bound(k);
        let s = k as u32;
        lemma_shr_within(cq, m as i32, s);
        lemma_shr_within(ci, m as i32, s);
        lemma_u32_shr_is_div(m as u32, s);
        let ci2 = if theta > angle {
            i32_specs::wrapping_sub(ci, cq >> s)
        } else {
            i32_specs::wrapping_add(ci, cq >> s)
        };
        let cq2 = if theta > angle {
            i32_specs::wrapping_add(cq, ci >> s)
        } else {
            i32_specs::wrapping_sub(cq, ci >> s)
        };
        let angle2 = if theta > angle {
            i32_specs::wrapping_add(angle, arctan(k as int))
        } else {
            i32_specs::wrapping_sub(angle, arctan(k as int))
        };
        lemma_rotate_bounded(theta, k + 1, ci2, cq2, angle2);
    }
}

/// A product that stays in range is not wrapped.
proof fn lemma_i32_crop_exact(v: int)
    requires
        i32::MIN <= v <= i32::MAX,
    ensures
        i32_specs::signed_crop(v) == v,
{
    if v >= 0 {
        lemma_small_mod(v as nat, 0x1_0000_0000);
    } else {
        lemma_fundamental_div_mod_converse(v, 0x1_0000_0000, -1, v + 0x1_0000_0000);
    }
}

/// The coordinates before the sign is applied, for angle `theta` in degrees.
pub open spec fn cordic_rotated(theta: i32) -> (i32, i32) {
    let (ci, cq, _) = cordic_rotate(cordic_normalize(theta).0, 0, 39797, 0, 0);
    (ci, cq)
}

/// Law: for every angle both coordinates lie within `[-189780, 189780]`, and
/// applying the sign of the normalization does not wrap.
pub proof fn lemma_cordic_coordinates_bounded(theta: i32)
    ensures
        -189780 <= cordic_iq_of(theta).i <= 189780,
        -189780 <= cordic_iq_of(theta).q <= 189780,
        cordic_iq_of(theta).i == cordic_rotated(theta).0 * cordic_normalize(theta).1,
        cordic_iq_of(theta).q == cordic_rotated(theta).1 * cordic_normalize(theta).1,
{
    lemma_rotate_bounded(cordic_normalize(theta).0, 0, 39797, 0, 0);
    let (ci, cq) = cordic_rotated(theta);
    let sg = cordic_normalize(theta).1;
    assert(sg == 1 || sg == -1);
    lemma_i32_crop_exact(ci * sg);
    lemma_i32_crop_exact(cq * sg);
}

/// Law: turning an angle strictly between -90 and 90 degrees by half a turn
/// negates both coordinates.
pub proof fn lemma_cordic_half_turn(theta: i32)
    requires
        -90 < theta < 90,
    ensures
        cordic_iq_of((theta + 180) as i32).i == -cordic_iq_of(theta).i,
        cordic_iq_of((theta + 180) as i32).q == -cordic_iq_of(theta).q,
{
    let t = theta as int;
    let t2 = (theta + 180) as i32;
    lemma_cordic_normalize_degrees(theta);
    lemma_cordic_normalize_degrees(t2);
    if t >= 0 {
        lemma_small_mod((t + 180) as nat, 360);
        lemma_fundamental_div_mod_converse(t + 360, 360, 1, t);
    } else {
        lemma_small_mod((180 - t) as nat, 360);
        lemma_small_mod((t + 360) as nat, 360);
    }
    assert(normalized_degrees(t) == (t, 1int));
    assert(normalized_degrees(t2 as int) == (t, -1int));
    assert(cordic_rotated(theta) == cordic_rotated(t2));
    lemma_cordic_coordinates_bounded(theta);
    lemma_cordic_coordinates_bounded(t2);
}


/// The bound on the error term of rotation `k >= 1`: after it, `2^(2k)` times
/// the squared length differs from `2^(2k) + 1` times the one before by at
/// most this much.
pub open spec fn length_err(k: nat) -> int {
    let p = pow2(k) as int;
    let w = coord_bound(k);
    4 * w * p + 2 * p * p + 4 * p * p * (w + p)
}

/// Lower bound on the squared length of the vector before rotation `k`.
pub open spec fn length_lo(k: nat) -> int
    decreases k,
{
    if k == 0 {
        1583801209
    } else if k == 1 {
        2 * length_lo(0)
    } else {
        let n = length_lo((k - 1) as nat);
        let p = pow2((k - 1) as nat) as int;
        n + (n - length_err((k - 1) as nat)) / (p * p)
    }
}

/// Upper bound on the squared length of the vector before rotation `k`.
pub open spec fn length_hi(k: nat) -> int
    decreases k,
{
    if k == 0 {
        1583801209
    } else if k == 1 {
        2 * length_hi(0)
    } else {
        let n = length_hi((k - 1) as nat);
        let p = pow2((k - 1) as nat) as int;
        n + (n + length_err((k - 1) as nat)) / (p * p)
    }
}

/// An arithmetic right shift by `k` is division by `2^k` rounded down.
proof fn lemma_shr_floor(b: i32, k: u32)
    requires
        k < 32,
    ensures
        0 <= b - (b >> k) * (pow2(k as nat) as int) < pow2(k as nat),
{
    let p = pow2(k as nat) as int;
    lemma_pow2_pos(k as nat);
    let c: u32 = if b >= 0 { b as u32 } else { !(b as u32) };
    assert(c as int == (if b >= 0 { b as int } else { -(b as int) - 1 })
        && (b >> k) as int == (if b >= 0 { (c >> k) as int } else { -((c >> k) as int) - 1 }))
        by (bit_vector)
        requires
            k < 32,
            c == (if b >= 0 { b as u32 } else { !(b as u32) }),
    ;
    lemma_u32_shr_is_div(c, k);
    lemma_fundamental_div_mod(c as int, p);
    lemma_mod_pos_bound(c as int, p);
    let q = c as int / p;
    if b >= 0 {
        assert(b - q * p == c as int % p) by (nonlinear_arith)
            requires
                c as int == p * q + c as int % p,
                b as int == c as int,
        ;
    } else {
        assert(b - (-q - 1) * p == p - c as int % p - 1) by (nonlinear_arith)
            requires
                c as int == p * q + c as int % p,
                b as int == -(c as int) - 1,
        ;
    }
}

/// The squared length after one rotation, written with the rounding errors
/// `e1` and `e2` of the two shifts: `a == t * p + e2` and `b == s * p + e1`.
proof fn lemma_length_identity(a: int, b: int, s: int, t: int, e1: int, e2: int, p: int, sg: int)
    requires
        a == t * p + e2,
        b == s * p + e1,
        sg == 1 || sg == -1,
    ensures
        ({
            let a2 = a - sg * s;
            let b2 = b + sg * t;
            p * p * (a2 * a2 + b2 * b2) - (p * p + 1) * (a * a + b * b) == -2 * (a * e2 + b * e1)
                + e1 * e1 + e2 * e2 + 2 * sg * (p * p * (e1 * t - e2 * s))
        }),
{
    let a2 = a - sg * s;
    let b2 = b + sg * t;
    let x = p * p;
    let q1 = a2 * a2 + b2 * b2;
    let q2 = a * a + b * b;
    let q3 = s * s + t * t;
    let q4 = b * t - a * s;
    let cross = e1 * t - e2 * s;
    assert(q1 == q2 + q3 + 2 * sg * q4) by (nonlinear_arith)
        requires
            a2 == a - sg * s,
            b2 == b + sg * t,
            q1 == a2 * a2 + b2 * b2,
            q2 == a * a + b * b,
            q3 == s * s + t * t,
            q4 == b * t - a * s,
            sg == 1 || sg == -1,
    ;
    assert(x * q1 == x * q2 + x * q3 + 2 * sg * (x * q4)) by (nonlinear_arith)
        requires
            q1 == q2 + q3 + 2 * sg * q4,
    ;
    assert(x * q3 == (b - e1) * (b - e1) + (a - e2) * (a - e2)) by (nonlinear_arith)
        requires
            b - e1 == s * p,
            a - e2 == t * p,
            x == p * p,
            q3 == s * s + t * t,
    ;
    assert((b - e1) * (b - e1) + (a - e2) * (a - e2) == q2 - 2 * (a * e2 + b * e1) + e1 * e1 + e2
        * e2) by (nonlinear_arith)
        requires
            q2 == a * a + b * b,
    ;
    assert(q4 == cross) by (nonlinear_arith)
        requires
            a == t * p + e2,
            b == s * p + e1,
            q4 == b * t - a * s,
            cross == e1 * t - e2 * s,
    ;
    assert(x * q1 - (x + 1) * q2 == x * q1 - x * q2 - q2) by (nonlinear_arith);
}

/// One rotation `k >= 1` of `(a, b)`: `2^(2k)` times the new squared length is
/// `2^(2k) + 1` times the old one, up to `length_err(k)`.
proof fn lemma_rotation_length(a: i32, b: i32, k: nat, up: bool)
    requires
        1 <= k < 18,
        -coord_bound(k) <= a <= coord_bound(k),
        -coord_bound(k) <= b <= coord_bound(k),
    ensures
        ({
            let s = (b >> (k as u32)) as int;
            let t = (a >> (k as u32)) as int;
            let a2 = if up { a - s } else { a + s };
            let b2 = if up { b + t } else { b - t };
            let p = pow2(k) as int;
            let d = p * p * (a2 * a2 + b2 * b2) - (p * p + 1) * (a * a + b * b);
            -length_err(k) <= d <= length_err(k)
        }),
{
    let p = pow2(k) as int;
    let w = coord_bound(k);
    lemma_pow2_pos(k);
    lemma_coord_bound_at_least_start(k);
    lemma_shr_floor(a, k as u32);
    lemma_shr_floor(b, k as u32);
    let s = (b >> (k as u32)) as int;
    let t = (a >> (k as u32)) as int;
    let e1 = b - s * p;
    let e2 = a - t * p;
    let ai = a as int;
    let bi = b as int;
    let sg: int = if up { 1 } else { -1 };
    let cross = e1 * t - e2 * s;
    lemma_length_identity(ai, bi, s, t, e1, e2, p, sg);
    assert(-(w * p) <= ai * e2 <= w * p && -(w * p) <= bi * e1 <= w * p) by (nonlinear_arith)
        requires
            -w <= ai <= w,
            -w <= bi <= w,
            0 <= e1 < p,
            0 <= e2 < p,
    ;
    assert(0 <= e1 * e1 <= p * p && 0 <= e2 * e2 <= p * p) by (nonlinear_arith)
        requires
            0 <= e1 < p,
            0 <= e2 < p,
    ;
    assert(-(w + p) <= t * p <= w + p && -(w + p) <= s * p <= w + p);
    assert(-(p * (w + p)) <= e1 * (t * p) <= p * (w + p) && -(p * (w + p)) <= e2 * (s * p) <= p
        * (w + p)) by (nonlinear_arith)
        requires
            -(w + p) <= t * p <= w + p,
            -(w + p) <= s * p <= w + p,
            0 <= e1 < p,
            0 <= e2 < p,
            w >= 0,
    ;
    let u = e1 * t;
    let v = e2 * s;
    assert(p * p * cross == p * p * u - p * p * v) by (nonlinear_arith)
        requires
            cross == u - v,
    ;
    assert(p * p * u == p * (e1 * (t * p))) by (nonlinear_arith)
        requires
            u == e1 * t,
    ;
    assert(p * p * v == p * (e2 * (s * p))) by (nonlinear_arith)
        requires
            v == e2 * s,
    ;
    let m1 = e1 * (t * p);
    let m2 = e2 * (s * p);
    let bnd = p * (w + p);
    assert(-(p * bnd) <= p * m1 <= p * bnd && -(p * bnd) <= p * m2 <= p * bnd) by (nonlinear_arith)
        requires
            -bnd <= m1 <= bnd,
            -bnd <= m2 <= bnd,
            p > 0,
    ;
    let c2 = p * p * cross;
    assert(-4 * (p * bnd) <= 2 * sg * c2 <= 4 * (p * bnd)) by (nonlinear_arith)
        requires
            c2 == p * m1 - p * m2,
            -(p * bnd) <= p * m1 <= p * bnd,
            -(p * bnd) <= p * m2 <= p * bnd,
            sg == 1 || sg == -1,
    ;
    assert(length_err(k) == 4 * (w * p) + 2 * (p * p) + 4 * (p * bnd)) by (nonlinear_arith)
        requires
            length_err(k) == 4 * w * p + 2 * p * p + 4 * p * p * (w + p),
            bnd == p * (w + p),
    ;
    let a2 = if up { ai - s } else { ai + s };
    let b2 = if up { bi + t } else { bi - t };
    if up {
        assert(sg * s == s && sg * t == t) by (nonlinear_arith)
            requires
                sg == 1,
        ;
    } else {
        assert(sg * s == -s && sg * t == -t) by (nonlinear_arith)
            requires
                sg == -1,
        ;
    }
    assert(a2 == ai - sg * s && b2 == bi + sg * t);
    let d = p * p * (a2 * a2 + b2 * b2) - (p * p + 1) * (ai * ai + bi * bi);
    let ee = -2 * (ai * e2 + bi * e1) + e1 * e1 + e2 * e2 + 2 * sg * c2;
    assert(d == ee);
    assert(-length_err(k) <= ee <= length_err(k));
}


/// The bounds on the squared length after the last rotation.
proof fn lemma_length_bounds_last()
    ensures
        length_lo(18) == 4281595067,
        length_hi(18) == 4308370439,
{
    lemma_coord_bound_values();
    lemma2_to64();
    assert(length_err(1) == 1910320) by (nonlinear_arith)
        requires
            length_err(1) == 4 * coord_bound(1) * (pow2(1) as int) + 2 * (pow2(1) as int) * (pow2(1) as int) + 4 * (pow2(1) as int) * (pow2(1) as int) * (coord_bound(1) + (pow2(1) as int)),
            coord_bound(1) == 79595,
            pow2(1) == 2,
    ;
    assert((pow2(1) as int) * (pow2(1) as int) == 4) by (nonlinear_arith)
        requires
            pow2(1) == 2,
    ;
    assert(length_err(2) == 9551728) by (nonlinear_arith)
        requires
            length_err(2) == 4 * coord_bound(2) * (pow2(2) as int) + 2 * (pow2(2) as int) * (pow2(2) as int) + 4 * (pow2(2) as int) * (pow2(2) as int) * (coord_bound(2) + (pow2(2) as int)),
            coord_bound(2) == 119393,
            pow2(2) == 4,
    ;
    assert((pow2(2) as int) * (pow2(2) as int) == 16) by (nonlinear_arith)
        requires
            pow2(2) == 4,
    ;
    assert(length_err(3) == 42983872) by (nonlinear_arith)
        requires
            length_err(3) == 4 * coord_bound(3) * (pow2(3) as int) + 2 * (pow2(3) as int) * (pow2(3) as int) + 4 * (pow2(3) as int) * (pow2(3) as int) * (coord_bound(3) + (pow2(3) as int)),
            coord_bound(3) == 149242,
            pow2(3) == 8,
    ;
    assert((pow2(3) as int) * (pow2(3) as int) == 64) by (nonlinear_arith)
        requires
            pow2(3) == 8,
    ;
    assert(length_err(4) == 182689920) by (nonlinear_arith)
        requires
            length_err(4) == 4 * coord_bound(4) * (pow2(4) as int) + 2 * (pow2(4) as int) * (pow2(4) as int) + 4 * (pow2(4) as int) * (pow2(4) as int) * (coord_bound(4) + (pow2(4) as int)),
            coord_bound(4) == 167898,
            pow2(4) == 16,
    ;
    assert((pow2(4) as int) * (pow2(4) as int) == 256) by (nonlinear_arith)
        requires
            pow2(4) == 16,
    ;
    assert(length_err(5) == 753660928) by (nonlinear_arith)
        requires
            length_err(5) == 4 * coord_bound(5) * (pow2(5) as int) + 2 * (pow2(5) as int) * (pow2(5) as int) + 4 * (pow2(5) as int) * (pow2(5) as int) * (coord_bound(5) + (pow2(5) as int)),
            coord_bound(5) == 178392,
            pow2(5) == 32,
    ;
    assert((pow2(5) as int) * (pow2(5) as int) == 1024) by (nonlinear_arith)
        requires
            pow2(5) == 32,
    ;
    assert(length_err(6) == 3062267648) by (nonlinear_arith)
        requires
            length_err(6) == 4 * coord_bound(6) * (pow2(6) as int) + 2 * (pow2(6) as int) * (pow2(6) as int) + 4 * (pow2(6) as int) * (pow2(6) as int) * (coord_bound(6) + (pow2(6) as int)),
            coord_bound(6) == 183967,
            pow2(6) == 64,
    ;
    assert((pow2(6) as int) * (pow2(6) as int) == 4096) by (nonlinear_arith)
        requires
            pow2(6) == 64,
    ;
    assert(length_err(7) == 12348961792) by (nonlinear_arith)
        requires
            length_err(7) == 4 * coord_bound(7) * (pow2(7) as int) + 2 * (pow2(7) as int) * (pow2(7) as int) + 4 * (pow2(7) as int) * (pow2(7) as int) * (coord_bound(7) + (pow2(7) as int)),
            coord_bound(7) == 186842,
            pow2(7) == 128,
    ;
    assert((pow2(7) as int) * (pow2(7) as int) == 16384) by (nonlinear_arith)
        requires
            pow2(7) == 128,
    ;
    assert(length_err(8) == 49622300672) by (nonlinear_arith)
        requires
            length_err(8) == 4 * coord_bound(8) * (pow2(8) as int) + 2 * (pow2(8) as int) * (pow2(8) as int) + 4 * (pow2(8) as int) * (pow2(8) as int) * (coord_bound(8) + (pow2(8) as int)),
            coord_bound(8) == 188302,
            pow2(8) == 256,
    ;
    assert((pow2(8) as int) * (pow2(8) as int) == 65536) by (nonlinear_arith)
        requires
            pow2(8) == 256,
    ;
    assert(length_err(9) == 199145254912) by (nonlinear_arith)
        requires
            length_err(9) == 4 * coord_bound(9) * (pow2(9) as int) + 2 * (pow2(9) as int) * (pow2(9) as int) + 4 * (pow2(9) as int) * (pow2(9) as int) * (coord_bound(9) + (pow2(9) as int)),
            coord_bound(9) == 189038,
            pow2(9) == 512,
    ;
    assert((pow2(9) as int) * (pow2(9) as int) == 262144) by (nonlinear_arith)
        requires
            pow2(9) == 512,
    ;
    assert(length_err(10) == 799507611648) by (nonlinear_arith)
        requires
            length_err(10) == 4 * coord_bound(10) * (pow2(10) as int) + 2 * (pow2(10) as int) * (pow2(10) as int) + 4 * (pow2(10) as int) * (pow2(10) as int) * (coord_bound(10) + (pow2(10) as int)),
            coord_bound(10) == 189408,
            pow2(10) == 1024,
    ;
    assert((pow2(10) as int) * (pow2(10) as int) == 1048576) by (nonlinear_arith)
        requires
            pow2(10) == 1024,
    ;
    assert(length_err(11) == 3216763985920) by (nonlinear_arith)
        requires
            length_err(11) == 4 * coord_bound(11) * (pow2(11) as int) + 2 * (pow2(11) as int) * (pow2(11) as int) + 4 * (pow2(11) as int) * (pow2(11) as int) * (coord_bound(11) + (pow2(11) as int)),
            coord_bound(11) == 189593,
            pow2(11) == 2048,
    ;
    assert((pow2(11) as int) * (pow2(11) as int) == 4194304) by (nonlinear_arith)
        requires
            pow2(11) == 2048,
    ;
    assert(length_err(12) == 13007631253504) by (nonlinear_arith)
        requires
            length_err(12) == 4 * coord_bound(12) * (pow2(12) as int) + 2 * (pow2(12) as int) * (pow2(12) as int) + 4 * (pow2(12) as int) * (pow2(12) as int) * (coord_bound(12) + (pow2(12) as int)),
            coord_bound(12) == 189686,
            pow2(12) == 4096,
    ;
    assert((pow2(12) as int) * (pow2(12) as int) == 16777216) by (nonlinear_arith)
        requires
            pow2(12) == 4096,
    ;
    assert(length_err(13) == 53136439017472) by (nonlinear_arith)
        requires
            length_err(13) == 4 * coord_bound(13) * (pow2(13) as int) + 2 * (pow2(13) as int) * (pow2(13) as int) + 4 * (pow2(13) as int) * (pow2(13) as int) * (coord_bound(13) + (pow2(13) as int)),
            coord_bound(13) == 189733,
            pow2(13) == 8192,
    ;
    assert((pow2(13) as int) * (pow2(13) as int) == 67108864) by (nonlinear_arith)
        requires
            pow2(13) == 8192,
    ;
    assert(length_err(14) == 221355186126848) by (nonlinear_arith)
        requires
            length_err(14) == 4 * coord_bound(14) * (pow2(14) as int) + 2 * (pow2(14) as int) * (pow2(14) as int) + 4 * (pow2(14) as int) * (pow2(14) as int) * (coord_bound(14) + (pow2(14) as int)),
            coord_bound(14) == 189757,
            pow2(14) == 16384,
    ;
    assert((pow2(14) as int) * (pow2(14) as int) == 268435456) by (nonlinear_arith)
        requires
            pow2(14) == 16384,
    ;
    assert(length_err(15) == 955816158035968) by (nonlinear_arith)
        requires
            length_err(15) == 4 * coord_bound(15) * (pow2(15) as int) + 2 * (pow2(15) as int) * (pow2(15) as int) + 4 * (pow2(15) as int) * (pow2(15) as int) * (coord_bound(15) + (pow2(15) as int)),
            coord_bound(15) == 189769,
            pow2(15) == 32768,
    ;
    assert((pow2(15) as int) * (pow2(15) as int) == 1073741824) by (nonlinear_arith)
        requires
            pow2(15) == 32768,
    ;
    assert(length_err(16) == 4386267919548416) by (nonlinear_arith)
        requires
            length_err(16) == 4 * coord_bound(16) * (pow2(16) as int) + 2 * (pow2(16) as int) * (pow2(16) as int) + 4 * (pow2(16) as int) * (pow2(16) as int) * (coord_bound(16) + (pow2(16) as int)),
            coord_bound(16) == 189775,
            pow2(16) == 65536,
    ;
    assert((pow2(16) as int) * (pow2(16) as int) == 4294967296) by (nonlinear_arith)
        requires
            pow2(16) == 65536,
    ;
    assert(length_err(17) == 22048777968812032) by (nonlinear_arith)
        requires
            length_err(17) == 4 * coord_bound(17) * (pow2(17) as int) + 2 * (pow2(17) as int) * (pow2(17) as int) + 4 * (pow2(17) as int) * (pow2(17) as int) * (coord_bound(17) + (pow2(17) as int)),
            coord_bound(17) == 189778,
            pow2(17) == 131072,
    ;
    assert((pow2(17) as int) * (pow2(17) as int) == 17179869184) by (nonlinear_arith)
        requires
            pow2(17) == 131072,
    ;
    assert(length_lo(0) == 1583801209 && length_hi(0) == 1583801209);
    assert(length_lo(0) == 1583801209 && length_hi(0) == 1583801209);
    assert(length_lo(1) == 3167602418 && length_hi(1) == 3167602418);
    assert(length_lo(2) == length_lo(1) + (length_lo(1) - length_err(1)) / ((pow2(1) as int) * (pow2(1) as int)));
    assert(length_lo(2) == 3959025442);
    assert(length_hi(2) == length_hi(1) + (length_hi(1) + length_err(1)) / ((pow2(1) as int) * (pow2(1) as int)));
    assert(length_hi(2) == 3959980602);
    assert(length_lo(3) == length_lo(2) + (length_lo(2) - length_err(2)) / ((pow2(2) as int) * (pow2(2) as int)));
    assert(length_lo(3) == 4205867549);
    assert(length_hi(3) == length_hi(2) + (length_hi(2) + length_err(2)) / ((pow2(2) as int) * (pow2(2) as int)));
    assert(length_hi(3) == 4208076372);
    assert(length_lo(4) == length_lo(3) + (length_lo(3) - length_err(3)) / ((pow2(3) as int) * (pow2(3) as int)));
    assert(length_lo(4) == 4270912606);
    assert(length_hi(4) == length_hi(3) + (length_hi(3) + length_err(3)) / ((pow2(3) as int) * (pow2(3) as int)));
    assert(length_hi(4) == 4274499188);
    assert(length_lo(5) == length_lo(4) + (length_lo(4) - length_err(4)) / ((pow2(4) as int) * (pow2(4) as int)));
    assert(length_lo(5) == 4286882225);
    assert(length_hi(5) == length_hi(4) + (length_hi(4) + length_err(4)) / ((pow2(4) as int) * (pow2(4) as int)));
    assert(length_hi(5) == 4291910082);
    assert(length_lo(6) == length_lo(5) + (length_lo(5) - length_err(5)) / ((pow2(5) as int) * (pow2(5) as int)));
    assert(length_lo(6) == 4290332636);
    assert(length_hi(6) == length_hi(5) + (length_hi(5) + length_err(5)) / ((pow2(5) as int) * (pow2(5) as int)));
    assert(length_hi(6) == 4296837397);
    assert(length_lo(7) == length_lo(6) + (length_lo(6) - length_err(6)) / ((pow2(6) as int) * (pow2(6) as int)));
    assert(length_lo(7) == 4290632456);
    assert(length_hi(7) == length_hi(6) + (length_hi(6) + length_err(6)) / ((pow2(6) as int) * (pow2(6) as int)));
    assert(length_hi(7) == 4298634053);
    assert(length_lo(8) == length_lo(7) + (length_lo(7) - length_err(7)) / ((pow2(7) as int) * (pow2(7) as int)));
    assert(length_lo(8) == 4290140614);
    assert(length_hi(8) == length_hi(7) + (length_hi(7) + length_err(7)) / ((pow2(7) as int) * (pow2(7) as int)));
    assert(length_hi(8) == 4299650141);
    assert(length_lo(9) == length_lo(8) + (length_lo(8) - length_err(8)) / ((pow2(8) as int) * (pow2(8) as int)));
    assert(length_lo(9) == 4289448900);
    assert(length_hi(9) == length_hi(8) + (length_hi(8) + length_err(8)) / ((pow2(8) as int) * (pow2(8) as int)));
    assert(length_hi(9) == 4300472924);
    assert(length_lo(10) == length_lo(9) + (length_lo(9) - length_err(9)) / ((pow2(9) as int) * (pow2(9) as int)));
    assert(length_lo(10) == 4288705584);
    assert(length_hi(10) == length_hi(9) + (length_hi(9) + length_err(9)) / ((pow2(9) as int) * (pow2(9) as int)));
    assert(length_hi(10) == 4301249007);
    assert(length_lo(11) == length_lo(10) + (length_lo(10) - length_err(10)) / ((pow2(10) as int) * (pow2(10) as int)));
    assert(length_lo(11) == 4287947204);
    assert(length_hi(11) == length_hi(10) + (length_hi(10) + length_err(10)) / ((pow2(10) as int) * (pow2(10) as int)));
    assert(length_hi(11) == 4302015578);
    assert(length_lo(12) == length_lo(11) + (length_lo(11) - length_err(11)) / ((pow2(11) as int) * (pow2(11) as int)));
    assert(length_lo(12) == 4287181290);
    assert(length_hi(12) == length_hi(11) + (length_hi(11) + length_err(11)) / ((pow2(11) as int) * (pow2(11) as int)));
    assert(length_hi(12) == 4302783539);
    assert(length_lo(13) == length_lo(12) + (length_lo(12) - length_err(12)) / ((pow2(12) as int) * (pow2(12) as int)));
    assert(length_lo(13) == 4286406230);
    assert(length_hi(13) == length_hi(12) + (length_hi(12) + length_err(12)) / ((pow2(12) as int) * (pow2(12) as int)));
    assert(length_hi(13) == 4303559110);
    assert(length_lo(14) == length_lo(13) + (length_lo(13) - length_err(13)) / ((pow2(13) as int) * (pow2(13) as int)));
    assert(length_lo(14) == 4285614499);
    assert(length_hi(14) == length_hi(13) + (length_hi(13) + length_err(13)) / ((pow2(13) as int) * (pow2(13) as int)));
    assert(length_hi(14) == 4304350968);
    assert(length_lo(15) == length_lo(14) + (length_lo(14) - length_err(14)) / ((pow2(14) as int) * (pow2(14) as int)));
    assert(length_lo(15) == 4284789902);
    assert(length_hi(15) == length_hi(14) + (length_hi(14) + length_err(14)) / ((pow2(14) as int) * (pow2(14) as int)));
    assert(length_hi(15) == 4305175596);
    assert(length_lo(16) == length_lo(15) + (length_lo(15) - length_err(15)) / ((pow2(15) as int) * (pow2(15) as int)));
    assert(length_lo(16) == 4283899732);
    assert(length_hi(16) == length_hi(15) + (length_hi(15) + length_err(15)) / ((pow2(15) as int) * (pow2(15) as int)));
    assert(length_hi(16) == 4306065773);
    assert(length_lo(17) == length_lo(16) + (length_lo(16) - length_err(16)) / ((pow2(16) as int) * (pow2(16) as int)));
    assert(length_lo(17) == 4282878475);
    assert(length_hi(17) == length_hi(16) + (length_hi(16) + length_err(16)) / ((pow2(16) as int) * (pow2(16) as int)));
    assert(length_hi(17) == 4307087031);
    assert(length_lo(18) == length_lo(17) + (length_lo(17) - length_err(17)) / ((pow2(17) as int) * (pow2(17) as int)));
    assert(length_lo(18) == 4281595067);
    assert(length_hi(18) == length_hi(17) + (length_hi(17) + length_err(17)) / ((pow2(17) as int) * (pow2(17) as int)));
    assert(length_hi(18) == 4308370439);
}


/// The rotations from step `k >= 1` on keep the squared length within the
/// bounds that the rounding errors of the remaining rotations allow.
proof fn lemma_rotate_length(theta: i32, k: nat, ci: i32, cq: i32, angle: i32)
    requires
        1 <= k <= 18,
        -coord_bound(k) <= ci <= coord_bound(k),
        -coord_bound(k) <= cq <= coord_bound(k),
        length_lo(k) <= ci * ci + cq * cq <= length_hi(k),
    ensures
        ({
            let (a, b, _) = cordic_rotate(theta, k, ci, cq, angle);
            length_lo(18) <= a * a + b * b <= length_hi(18)
        }),
    decreases 18 - k,
{
    if k < 18 {
        lemma_coord_bound_range(k);
        lemma_coord_bound_range(k + 1);
        let m = coord_bound(k);
        let s = k as u32;
        lemma_shr_within(cq, m as i32, s);
        lemma_shr_within(ci, m as i32, s);
        lemma_u32_shr_is_div(m as u32, s);
        let up = theta > angle;
        let ci2 = if up {
            i32_specs::wrapping_sub(ci, cq >> s)
        } else {
            i32_specs::wrapping_add(ci, cq >> s)
        };
        let cq2 = if up {
            i32_specs::wrapping_add(cq, ci >> s)
        } else {
            i32_specs::wrapping_sub(cq, ci >> s)
        };
        let angle2 = if up {
            i32_specs::wrapping_add(angle, arctan(k as int))
        } else {
            i32_specs::wrapping_sub(angle, arctan(k as int))
        };
        assert(ci2 == if up { ci - (cq >> s) } else { ci + (cq >> s) });
        assert(cq2 == if up { cq + (ci >> s) } else { cq - (ci >> s) });
        lemma_rotation_length(ci, cq, k, up);
        let p = pow2(k) as int;
        lemma_pow2_pos(k);
        let x = p * p;
        let n = ci * ci + cq * cq;
        let n2 = ci2 * ci2 + cq2 * cq2;
        let err = length_err(k);
        let lo = length_lo(k);
        let hi = length_hi(k);
        assert(x > 0) by (nonlinear_arith)
            requires
                p > 0,
                x == p * p,
        ;
        assert(-err <= x * n2 - (x + 1) * n <= err);
        assert(length_lo(k + 1) == lo + (lo - err) / x);
        assert(length_hi(k + 1) == hi + (hi + err) / x);
        lemma_fundamental_div_mod(lo - err, x);
        lemma_mod_bound(lo - err, x);
        lemma_fundamental_div_mod(hi + err, x);
        lemma_mod_bound(hi + err, x);
        let ql = (lo - err) / x;
        let qh = (hi + err) / x;
        assert(x * n >= x * lo && x * n <= x * hi) by (nonlinear_arith)
            requires
                lo <= n <= hi,
                x > 0,
        ;
        assert(x * n2 >= x * (lo + ql)) by (nonlinear_arith)
            requires
                x * n2 - (x + 1) * n >= -err,
                x * n >= x * lo,
                n >= lo,
                x * ql <= lo - err,
        ;
        assert(x * n2 < x * (hi + qh + 1)) by (nonlinear_arith)
            requires
                x * n2 - (x + 1) * n <= err,
                x * n <= x * hi,
                n <= hi,
                x * qh > hi + err - x,
        ;
        assert(lo + ql <= n2 <= hi + qh) by (nonlinear_arith)
            requires
                x > 0,
                x * n2 >= x * (lo + ql),
                x * n2 < x * (hi + qh + 1),
        ;
        lemma_rotate_length(theta, k + 1, ci2, cq2, angle2);
    }
}

/// Law: for every angle the squared length `i * i + q * q` of the result lies
/// between `65433^2` and `65639^2`, that is within 0.16% of `65536^2`, the
/// square of the length that stands for one.
pub proof fn lemma_cordic_length(theta: i32)
    ensures
        65433 * 65433 <= cordic_iq_of(theta).i * cordic_iq_of(theta).i + cordic_iq_of(theta).q
            * cordic_iq_of(theta).q <= 65639 * 65639,
{
    let t = cordic_normalize(theta).0;
    let up = t > 0;
    assert((0i32 >> 0u32) == 0i32 && (39797i32 >> 0u32) == 39797i32) by (bit_vector);
    let cq1: i32 = if up { 39797i32 } else { -39797i32 };
    let a1 = if up {
        i32_specs::wrapping_add(0, arctan(0))
    } else {
        i32_specs::wrapping_sub(0, arctan(0))
    };
    assert(cordic_rotate(t, 0, 39797, 0, 0) == cordic_rotate(t, 1, 39797, cq1, a1));
    lemma_coord_bound_values();
    lemma_length_bounds_last();
    assert(39797 * 39797 + cq1 * cq1 == 3167602418) by (nonlinear_arith)
        requires
            cq1 == 39797 || cq1 == -39797,
    ;
    assert(length_lo(0) == 1583801209 && length_hi(0) == 1583801209);
    assert(length_lo(1) == 3167602418 && length_hi(1) == 3167602418);
    lemma_rotate_length(t, 1, 39797, cq1, a1);
    lemma_cordic_coordinates_bounded(theta);
    let (ci, cq) = cordic_rotated(theta);
    let sg = cordic_normalize(theta).1;
    let r = cordic_iq_of(theta);
    assert(r.i * r.i + r.q * r.q == ci * ci + cq * cq) by (nonlinear_arith)
        requires
            r.i == ci * sg,
            r.q == cq * sg,
            sg == 1 || sg == -1,
    ;
}




/// How far from the target the angle may be before rotation `k` for the
/// rotations to end within `arctan(17)` of it: the remaining table entries,
/// plus the last one.
pub open spec fn angle_reach(k: nat) -> int
    decreases 18 - k,
{
    if k >= 18 {
        arctan(17) as int
    } else {
        arctan(k as int) + angle_reach(k + 1)
    }
}

/// The reach before each rotation.
proof fn lemma_angle_reach_values()
    ensures
        angle_reach(0) == 6545931,
        angle_reach(1) == 3596811,
        angle_reach(2) == 1855844,
        angle_reach(3) == 935965,
        angle_reach(4) == 469020,
        angle_reach(5) == 234641,
        angle_reach(6) == 117337,
        angle_reach(7) == 58671,
        angle_reach(8) == 29336,
        angle_reach(9) == 14668,
        angle_reach(10) == 7334,
        angle_reach(11) == 3667,
        angle_reach(12) == 1834,
        angle_reach(13) == 917,
        angle_reach(14) == 459,
        angle_reach(15) == 230,
        angle_reach(16) == 115,
        angle_reach(17) == 58,
        angle_reach(18) == 29,
{
    assert(angle_reach(18) == 29);
    assert(angle_reach(17) == 58);
    assert(angle_reach(16) == 115);
    assert(angle_reach(15) == 230);
    assert(angle_reach(14) == 459);
    assert(angle_reach(13) == 917);
    assert(angle_reach(12) == 1834);
    assert(angle_reach(11) == 3667);
    assert(angle_reach(10) == 7334);
    assert(angle_reach(9) == 14668);
    assert(angle_reach(8) == 29336);
    assert(angle_reach(7) == 58671);
    assert(angle_reach(6) == 117337);
    assert(angle_reach(5) == 234641);
    assert(angle_reach(4) == 469020);
    assert(angle_reach(3) == 935965);
    assert(angle_reach(2) == 1855844);
    assert(angle_reach(1) == 3596811);
    assert(angle_reach(0) == 6545931);
}

/// Each table entry is positive and no larger than the reach after it, and
/// the reach shrinks with each rotation.
proof fn lemma_angle_step(k: nat)
    requires
        k < 18,
    ensures
        0 < arctan(k as int) <= angle_reach(k + 1),
        angle_reach(k + 1) <= angle_reach(k) <= angle_reach(0),
{
    lemma_angle_reach_values();
    if k == 0 {
        assert(arctan(0) == 2949120);
    } else if k == 1 {
        assert(arctan(1) == 1740967);
    } else if k == 2 {
        assert(arctan(2) == 919879);
    } else if k == 3 {
        assert(arctan(3) == 466945);
    } else if k == 4 {
        assert(arctan(4) == 234379);
    } else if k == 5 {
        assert(arctan(5) == 117304);
    } else if k == 6 {
        assert(arctan(6) == 58666);
    } else if k == 7 {
        assert(arctan(7) == 29335);
    } else if k == 8 {
        assert(arctan(8) == 14668);
    } else if k == 9 {
        assert(arctan(9) == 7334);
    } else if k == 10 {
        assert(arctan(10) == 3667);
    } else if k == 11 {
        assert(arctan(11) == 1833);
    } else if k == 12 {
        assert(arctan(12) == 917);
    } else if k == 13 {
        assert(arctan(13) == 458);
    } else if k == 14 {
        assert(arctan(14) == 229);
    } else if k == 15 {
        assert(arctan(15) == 115);
    } else if k == 16 {
        assert(arctan(16) == 57);
    } else if k == 17 {
        assert(arctan(17) == 29);
    }
}

/// Rotations from step `k` on, started within `angle_reach(k)` of the target,
/// end within `arctan(17)` of it; no step of the angle wraps.
proof fn lemma_rotation_angle_close(theta: i32, k: nat, ci: i32, cq: i32, angle: i32)
    requires
        k <= 18,
        -angle_reach(0) <= theta <= angle_reach(0),
        -angle_reach(k) <= theta - angle <= angle_reach(k),
    ensures
        -29 <= theta - cordic_rotate(theta, k, ci, cq, angle).2 <= 29,
    decreases 18 - k,
{
    lemma_angle_reach_values();
    if k < 18 {
        lemma_angle_step(k);
        let a2 = if theta > angle {
            i32_specs::wrapping_add(angle, arctan(k as int))
        } else {
            i32_specs::wrapping_sub(angle, arctan(k as int))
        };
        assert(a2 == if theta > angle { angle + arctan(k as int) } else { angle - arctan(k as int) });
        let ci2 = if theta > angle {
            i32_specs::wrapping_sub(ci, cq >> (k as u32))
        } else {
            i32_specs::wrapping_add(ci, cq >> (k as u32))
        };
        let cq2 = if theta > angle {
            i32_specs::wrapping_add(cq, ci >> (k as u32))
        } else {
            i32_specs::wrapping_sub(cq, ci >> (k as u32))
        };
        lemma_rotation_angle_close(theta, k + 1, ci2, cq2, a2);
    }
}

/// Law: steering towards a target within `angle_reach(0)` (about 99.9
/// degrees) of zero, the 18 rotations of any vector end at an angle within
/// `arctan(17)`, 29 units of 2^-16 degree, of it.
pub proof fn lemma_rotation_reaches_target(theta: i32, ci: i32, cq: i32)
    requires
        -angle_reach(0) <= theta <= angle_reach(0),
    ensures
        -29 <= theta - cordic_rotate(theta, 0, ci, cq, 0).2 <= 29,
{
    lemma_rotation_angle_close(theta, 0, ci, cq, 0);
}

/// Law: for an angle whose fixed point values do not wrap, the rotations that
/// give the result turn the vector to within 29 units of 2^-16 degree of the
/// normalized angle, which lies within 90 degrees of zero.
pub proof fn lemma_cordic_direction(theta: i32)
    requires
        -32588 <= theta <= 32587,
    ensures
        ({
            let t = cordic_normalize(theta).0;
            &&& t == normalized_degrees(theta as int).0 * 65536
            &&& -90 * 65536 <= t <= 90 * 65536
            &&& -29 <= t - cordic_rotate(t, 0, 39797, 0, 0).2 <= 29
        }),
{
    lemma_cordic_normalize_degrees(theta);
    lemma_angle_reach_values();
    lemma_rotation_reaches_target(cordic_normalize(theta).0, 39797, 0);
}

} // verus!
