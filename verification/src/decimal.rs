//! The decimal value type and its operations.

pub mod base;

pub mod errors;

pub mod cmp;

pub mod ops;

pub mod big;

pub mod display;

pub mod parse;

pub mod laws;

pub mod msb;

pub mod square;

pub mod ln_tables;

pub use base::Decimal;
pub use base::COMPUTE_SCALE;
