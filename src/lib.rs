//! Exact rational arithmetic and a simplex solver for production planning.
pub mod gcd;
pub mod rational;
pub mod tableau;
pub mod args;
