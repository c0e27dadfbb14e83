//! Integer helpers of the kernel's math library: greatest common divisor and
//! least common multiple, integer powers and square roots, reciprocal division
//! constants, best rational approximation, CORDIC rotation and integer
//! polynomial evaluation.
use vstd::prelude::*;

pub mod cordic;
pub mod gcd;
pub mod int_pow;
pub mod lcm;
pub mod polynomial;
pub mod int_sqrt;
pub mod rational;
pub mod reciprocal;

verus! {

} // verus!
