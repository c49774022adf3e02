//! # Library for parsing numbers from scientific notation
//!
//! A text such as `1234.5678e-2`, `-Infinity` or `SNaN` is scanned in one
//! pass, rounded to 34 significant digits and encoded as a 128-bit decimal in
//! binary integer format, together with the status flags that the conversion
//! raised.

pub mod bid128;
pub mod common;
pub mod fsm;
pub mod grammar;
pub mod mantissa;
pub mod number;
pub mod recognizer;
pub mod scanner;
pub mod text;

pub use bid128::{bid128_from_string, Bid128};
pub use number::{number_from_string, Number};
