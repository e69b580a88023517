//! An unsigned fixed-point number with 18 decimal places, backed by a `u128`.

pub mod decimal;
pub mod fixed;
pub mod integer;
pub mod laws;
pub mod text;
pub mod wide;
