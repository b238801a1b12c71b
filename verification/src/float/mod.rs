pub mod accuracy;
pub mod arith;
pub mod convert;
pub mod double;
pub mod error;
pub mod grid;
pub mod laws;
pub mod monotone;
pub mod nearest;
pub mod order;
pub mod rounding;
pub mod single;
