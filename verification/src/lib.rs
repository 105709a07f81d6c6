//! Exhaustive solver for the 24-point card puzzle.
//!
//! Given four integer operands, the solver lists every fully parenthesised
//! expression over `+ - * /` that reaches 24. All arithmetic is exact:
//! intermediate values are fractions of integers, so no rounding ever
//! decides whether a candidate counts.

pub mod candidate;
pub mod distinct;
pub mod enumerate;
pub mod expr;
pub mod permute;
pub mod rational;
pub mod reading;
pub mod render;
pub mod solve;

pub use candidate::{try_struct1, try_struct2, try_struct3, try_struct4, try_struct5};
pub use enumerate::find_solutions_for_permutation;
pub use permute::permutations;
pub use rational::{apply_op, Rational, EPSILON_INVERSE, TARGET};
pub use solve::solve_24;
