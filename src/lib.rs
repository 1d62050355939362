//! Correctly rounded conversion between numeric text and IEEE-754 binary32 /
//! binary64 values, in any radix from 2 to 36.
//!
//! Floats are handled through their bit patterns (`u64`, with binary32 in the
//! low 32 bits), so that every step is integer arithmetic.
//!
//! - `bignat`: natural numbers of any size, the exact arithmetic under both directions.
//! - `float`: the formats, the rounding modes, and the specification of rounding a
//!   positive ratio `p / q` to the nearest float, with its executable counterpart.
//! - `parse`: a digit stream and an exponent to float bits (exact integer fast path,
//!   then exact big-number rounding).
//! - `lexer`: reading sign, digits, point and exponent from bytes.
//! - `write`: the shortest digits that read back as the same float.
//! - `digits`, `text`: digit sequences, integers and floats written as text.
//! - `options`, `constants`: option records and buffer sizes.
use vstd::prelude::*;

pub mod bignat;
pub mod constants;
pub mod digits;
pub mod float;
pub mod lexer;
pub mod options;
pub mod parse;
pub mod text;
pub mod write;

verus! {

} // verus!
