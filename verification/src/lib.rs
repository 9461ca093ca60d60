//! Equivalence reasoning for the physical-plan layer of a SQL query optimizer.
//!
//! The crate tracks which expressions are provably equal within a relation at
//! a given point in a plan, and uses that knowledge to normalize, project and
//! merge expressions across plan transformations (filters, joins,
//! projections).  A smaller, auxiliary model of SQL window-frame bounds and
//! their validation lives alongside it.

pub mod scalar;
pub mod expr;
pub mod seqs;
pub mod class;
pub mod group;
pub mod sort;
pub mod projection;
pub mod window_frame;
pub mod display;
