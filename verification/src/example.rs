//! Estimators for simple values.

pub mod binary;
pub mod integer;
pub mod ternary;
pub mod vote_count;
