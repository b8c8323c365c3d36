//! Proper divisors of a natural number, for every unsigned integer width.
//!
//! The divisors are found by stripping powers of two, trial division by odd
//! candidates up to a power-of-two bound on the square root, and combining
//! each prime power found with the divisors known before it.

use vstd::prelude::*;

pub mod arith;
pub mod divisors;
pub mod sorted;
pub mod sqrt;
pub mod unsigned;

pub use divisors::get_divisors;
pub use sqrt::approximated_sqrt;
pub use unsigned::Num;

verus! {

} // verus!
