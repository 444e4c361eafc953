//! The suspension primitives and the join combinator.
pub mod delay;
pub mod join;
pub mod yield_now;
