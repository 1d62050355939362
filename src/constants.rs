//! Buffer sizes for formatted numbers.
use crate::float::FloatKind;
use vstd::prelude::*;

verus! {

/// The size, in bytes, of formatted values.
pub trait FormattedSize {
    /// Maximum number of bytes required to serialize a number to string.
    const FORMATTED_SIZE: usize;
    /// Maximum number of bytes required to serialize a number to a decimal string.
    const FORMATTED_SIZE_DECIMAL: usize;
}

impl FormattedSize for i8 {
    const FORMATTED_SIZE: usize = 16;
    const FORMATTED_SIZE_DECIMAL: usize = 4;
}

impl FormattedSize for i16 {
    const FORMATTED_SIZE: usize = 32;
    const FORMATTED_SIZE_DECIMAL: usize = 6;
}

impl FormattedSize for i32 {
    const FORMATTED_SIZE: usize = 64;
    const FORMATTED_SIZE_DECIMAL: usize = 11;
}

impl FormattedSize for i64 {
    const FORMATTED_SIZE: usize = 128;
    const FORMATTED_SIZE_DECIMAL: usize = 20;
}

impl FormattedSize for i128 {
    const FORMATTED_SIZE: usize = 256;
    const FORMATTED_SIZE_DECIMAL: usize = 40;
}

impl FormattedSize for u8 {
    const FORMATTED_SIZE: usize = 16;
    const FORMATTED_SIZE_DECIMAL: usize = 3;
}

impl FormattedSize for u16 {
    const FORMATTED_SIZE: usize = 32;
    const FORMATTED_SIZE_DECIMAL: usize = 5;
}

impl FormattedSize for u32 {
    const FORMATTED_SIZE: usize = 64;
    const FORMATTED_SIZE_DECIMAL: usize = 10;
}

impl FormattedSize for u64 {
    const FORMATTED_SIZE: usize = 128;
    const FORMATTED_SIZE_DECIMAL: usize = 20;
}

impl FormattedSize for u128 {
    const FORMATTED_SIZE: usize = 256;
    const FORMATTED_SIZE_DECIMAL: usize = 39;
}

impl FormattedSize for isize {
    const FORMATTED_SIZE: usize = 128;
    const FORMATTED_SIZE_DECIMAL: usize = 20;
}

impl FormattedSize for usize {
    const FORMATTED_SIZE: usize = 128;
    const FORMATTED_SIZE_DECIMAL: usize = 20;
}

impl FloatKind {
    /// Maximum number of bytes of a formatted float in any radix.
    pub fn formatted_size(self) -> (r: usize)
        ensures
            r == 256,
    {
        256
    }

    /// Maximum number of bytes of a formatted float in radix ten.
    pub fn formatted_size_decimal(self) -> (r: usize)
        ensures
            r == 64,
    {
        64
    }
}

/// Maximum number of bytes required to serialize any number to string.
pub const BUFFER_SIZE: usize = 256;

} // verus!
