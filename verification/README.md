# kernel_math

Integer helpers of the kernel math library, written in Verus with their
contracts proved.

- `src/gcd.rs`: binary greatest common divisor, and the theory of `gcd_of`.
- `src/lcm.rs`: least common multiple, and `lcm_not_zero`.
- `src/int_pow.rs`: power by repeated squaring, modulo 2^64.
- `src/int_sqrt.rs`: integer square root of 64-bit values.
- `src/reciprocal.rs`: multiplier and shifts that replace division by a fixed
  divisor, with the proof that they divide exactly.
- `src/rational.rs`: best rational approximation under bounds, in lowest
  terms.
- `src/cordic.rs`: CORDIC rotation for the cosine and sine of an angle, with
  bounds on the length of the result, the angle its rotations reach, and its
  symmetries under full and half turns.
- `src/polynomial.rs`: `mult_frac` and integer polynomial evaluation.

`app/lib.rs` exposes the functions with their C signatures and structures;
`tests/` runs them on concrete values.
