//! Binary floating-point arithmetic in integers.
//!
//! Every operation is specified by the exact result and its correct rounding,
//! to nearest with ties to even, and proved to return it.
pub mod arith;
pub mod constants;
pub mod convert;
pub mod double;
pub mod error;
pub mod exact;
pub mod laws;
pub mod powers;
pub mod root;
pub mod rounding;
pub mod scale;
pub mod single;
