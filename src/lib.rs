//! Arbitrary-precision signed integers: a sign tag and a little-endian sequence of 64-bit limbs,
//! with verified addition, subtraction, multiplication, long division and decimal conversion.
pub mod division;
pub mod io;
pub mod laws;
pub mod magnitude;
pub mod marint;
pub mod model;
pub mod ops;
pub mod sign;

pub use crate::io::ParseMarIntError;
pub use crate::marint::MarInt;
pub use crate::ops::DivisionByZero;
pub use crate::sign::MSgn;
pub use crate::sign::MSgn::{MNeg, MPos, MZero};
