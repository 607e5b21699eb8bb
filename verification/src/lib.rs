//! The exact kernel of a small geometric-algebra library: counting and listing
//! basis blades, locating bivector components, the signs of index
//! permutations, and the geometric product of basis blades.
//!
//! - [`binomial`]: binomial coefficients, the number of basis blades per grade.
//! - [`subsets`]: basis blades of a grade as increasing index selections in
//!   lexicographic order, and the position of a bivector among them.
//! - [`permutation`]: signs of arrangements of basis-vector indices.
//! - [`clifford`]: basis blades of the five-dimensional algebra indexed by
//!   bitmask: their product, grade and reversal sign.

pub mod binomial;
pub mod clifford;
pub mod permutation;
pub mod subsets;
