//! An exact-arithmetic sparse linear-algebra core: an extended numeric domain
//! (exact rationals together with both infinities and a not-a-number value)
//! and the sparse vector and matrix primitives that linear-programming
//! solvers are built from.

pub mod abnormal_fraction;
pub mod linear_programming_helpers;
pub mod linear_programming_sparse;
pub mod rational;
