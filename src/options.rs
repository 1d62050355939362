//! Options records for parsing and writing.
use crate::float::RoundingKind;
use vstd::prelude::*;

verus! {

/// Why an options record could not be built.
#[derive(Clone, Copy, Debug, PartialEq, Eq, Structural)]
pub enum OptionsError {
    InvalidRadix,
    InvalidExponent,
    InvalidDecimalPoint,
}

/// Value of an ASCII digit in radixes up to 36; 99 for any other byte.
pub open spec fn digit_value(c: u8) -> nat {
    if 0x30 <= c <= 0x39 {
        (c - 0x30) as nat
    } else if 0x61 <= c <= 0x7A {
        (c - 0x61 + 10) as nat
    } else if 0x41 <= c <= 0x5A {
        (c - 0x41 + 10) as nat
    } else {
        99
    }
}

/// ASCII lower case of a byte.
pub open spec fn ascii_lower(c: u8) -> u8 {
    if 0x41 <= c <= 0x5A {
        (c + 0x20) as u8
    } else {
        c
    }
}

/// The byte may serve as exponent marker or decimal point in the given radix:
/// printable, and neither a digit nor a sign.
pub open spec fn valid_marker(c: u8, radix: nat) -> bool {
    &&& 0x21 <= c <= 0x7E
    &&& digit_value(c) >= radix
    &&& c != 0x2B && c != 0x2D
}

/// Exponent marker and decimal point that make an unambiguous grammar.
pub open spec fn valid_grammar(exponent: u8, point: u8, radix: nat) -> bool {
    &&& valid_marker(exponent, radix)
    &&& valid_marker(point, radix)
    &&& ascii_lower(exponent) != ascii_lower(point)
}

/// Checks a grammar's exponent marker and decimal point.
pub fn check_grammar(exponent: u8, point: u8, radix: u32) -> (r: Result<(), OptionsError>)
    requires
        2 <= radix <= 36,
    ensures
        !valid_marker(exponent, radix as nat) ==> r == Err::<(), OptionsError>(
            OptionsError::InvalidExponent,
        ),
        valid_marker(exponent, radix as nat) && !valid_grammar(exponent, point, radix as nat)
            ==> r == Err::<(), OptionsError>(OptionsError::InvalidDecimalPoint),
        valid_grammar(exponent, point, radix as nat) ==> r == Ok::<(), OptionsError>(()),
{
    if exponent < 0x21 || exponent > 0x7E || (digit_of(exponent) as u32) < radix || exponent
        == 0x2B || exponent == 0x2D {
        return Err(OptionsError::InvalidExponent);
    }
    if point < 0x21 || point > 0x7E || (digit_of(point) as u32) < radix || point == 0x2B || point
        == 0x2D || lower_of(point) == lower_of(exponent) {
        return Err(OptionsError::InvalidDecimalPoint);
    }
    Ok(())
}

pub fn digit_of(c: u8) -> (r: u8)
    ensures
        r == digit_value(c),
{
    if 0x30 <= c && c <= 0x39 {
        c - 0x30
    } else if 0x61 <= c && c <= 0x7A {
        c - 0x61 + 10
    } else if 0x41 <= c && c <= 0x5A {
        c - 0x41 + 10
    } else {
        99
    }
}

pub fn lower_of(c: u8) -> (r: u8)
    ensures
        r == ascii_lower(c),
{
    if 0x41 <= c && c <= 0x5A {
        c + 0x20
    } else {
        c
    }
}

/// The default exponent marker: `e` where it is no digit, `^` elsewhere.
pub open spec fn default_marker(radix: nat) -> u8 {
    if radix <= 14 {
        0x65
    } else {
        0x5E
    }
}

/// Options for parsing a float.
#[derive(Clone, Copy, Debug, PartialEq, Eq, Structural)]
pub struct ParseFloatOptions {
    pub radix: u32,
    /// Accepted for compatibility: conversion here is always exact.
    pub lossy: bool,
    pub rounding: RoundingKind,
    pub exponent: u8,
    pub decimal_point: u8,
}

impl ParseFloatOptions {
    pub open spec fn valid(&self) -> bool {
        2 <= self.radix <= 36 && valid_grammar(self.exponent, self.decimal_point, self.radix as nat)
    }

    /// Decimal, nearest with ties to even, `e` as exponent marker, `.` as point.
    pub fn new() -> (r: ParseFloatOptions)
        ensures
            r.valid(),
            r.radix == 10,
            !r.lossy,
            r.rounding == RoundingKind::NearestTiesEven,
            r.exponent == 0x65,
            r.decimal_point == 0x2E,
    {
        ParseFloatOptions {
            radix: 10,
            lossy: false,
            rounding: RoundingKind::NearestTiesEven,
            exponent: 0x65,
            decimal_point: 0x2E,
        }
    }

    /// Radix two, with `^` as exponent marker and `.` as point.
    pub fn binary() -> (r: ParseFloatOptions)
        ensures
            r.valid(),
            r.radix == 2,
            !r.lossy,
            r.rounding == RoundingKind::NearestTiesEven,
            r.exponent == 0x5E,
            r.decimal_point == 0x2E,
    {
        ParseFloatOptions {
            radix: 2,
            lossy: false,
            rounding: RoundingKind::NearestTiesEven,
            exponent: 0x5E,
            decimal_point: 0x2E,
        }
    }

    pub fn builder() -> (r: ParseFloatOptionsBuilder)
        ensures
            r.radix == 10,
            !r.lossy,
            r.rounding == RoundingKind::NearestTiesEven,
            r.exponent.is_none(),
            r.decimal_point == 0x2E,
    {
        ParseFloatOptionsBuilder {
            radix: 10,
            lossy: false,
            rounding: RoundingKind::NearestTiesEven,
            exponent: None,
            decimal_point: 0x2E,
        }
    }
}

/// Builder of `ParseFloatOptions`; without an explicit marker the radix picks one.
#[derive(Clone, Copy, Debug, PartialEq, Eq)]
pub struct ParseFloatOptionsBuilder {
    pub radix: u32,
    pub lossy: bool,
    pub rounding: RoundingKind,
    pub exponent: Option<u8>,
    pub decimal_point: u8,
}

impl ParseFloatOptionsBuilder {
    pub fn radix(self, radix: u32) -> (r: ParseFloatOptionsBuilder)
        ensures
            r == (ParseFloatOptionsBuilder { radix, ..self }),
    {
        ParseFloatOptionsBuilder { radix, ..self }
    }

    pub fn lossy(self, lossy: bool) -> (r: ParseFloatOptionsBuilder)
        ensures
            r == (ParseFloatOptionsBuilder { lossy, ..self }),
    {
        ParseFloatOptionsBuilder { lossy, ..self }
    }

    pub fn rounding(self, rounding: RoundingKind) -> (r: ParseFloatOptionsBuilder)
        ensures
            r == (ParseFloatOptionsBuilder { rounding, ..self }),
    {
        ParseFloatOptionsBuilder { rounding, ..self }
    }

    pub fn exponent(self, exponent: u8) -> (r: ParseFloatOptionsBuilder)
        ensures
            r == (ParseFloatOptionsBuilder { exponent: Some(exponent), ..self }),
    {
        ParseFloatOptionsBuilder { exponent: Some(exponent), ..self }
    }

    pub fn decimal_point(self, decimal_point: u8) -> (r: ParseFloatOptionsBuilder)
        ensures
            r == (ParseFloatOptionsBuilder { decimal_point, ..self }),
    {
        ParseFloatOptionsBuilder { decimal_point, ..self }
    }

    /// The options, or why they are invalid.
    pub fn build(self) -> (r: Result<ParseFloatOptions, OptionsError>)
        ensures
            !(2 <= self.radix <= 36) ==> r == Err::<ParseFloatOptions, OptionsError>(
                OptionsError::InvalidRadix,
            ),
            2 <= self.radix <= 36 ==> {
                let marker = match self.exponent {
                    Some(c) => c,
                    None => default_marker(self.radix as nat),
                };
                if !valid_marker(marker, self.radix as nat) {
                    r == Err::<ParseFloatOptions, OptionsError>(OptionsError::InvalidExponent)
                } else if !valid_grammar(marker, self.decimal_point, self.radix as nat) {
                    r == Err::<ParseFloatOptions, OptionsError>(OptionsError::InvalidDecimalPoint)
                } else {
                    r == Ok::<ParseFloatOptions, OptionsError>(
                        ParseFloatOptions {
                            radix: self.radix,
                            lossy: self.lossy,
                            rounding: self.rounding,
                            exponent: marker,
                            decimal_point: self.decimal_point,
                        },
                    )
                }
            },
    {
        if self.radix < 2 || self.radix > 36 {
            return Err(OptionsError::InvalidRadix);
        }
        let marker = match self.exponent {
            Some(c) => c,
            None => if self.radix <= 14 {
                0x65
            } else {
                0x5E
            },
        };
        match check_grammar(marker, self.decimal_point, self.radix) {
            Err(e) => Err(e),
            Ok(()) => Ok(
                ParseFloatOptions {
                    radix: self.radix,
                    lossy: self.lossy,
                    rounding: self.rounding,
                    exponent: marker,
                    decimal_point: self.decimal_point,
                },
            ),
        }
    }
}

/// Options for writing a float.
#[derive(Clone, Copy, Debug, PartialEq, Eq, Structural)]
pub struct WriteFloatOptions {
    pub radix: u32,
    pub exponent: u8,
    pub decimal_point: u8,
}

impl WriteFloatOptions {
    pub open spec fn valid(&self) -> bool {
        2 <= self.radix <= 36 && valid_grammar(self.exponent, self.decimal_point, self.radix as nat)
    }

    /// Decimal, `e` as exponent marker, `.` as point.
    pub fn new() -> (r: WriteFloatOptions)
        ensures
            r.valid(),
            r.radix == 10,
            r.exponent == 0x65,
            r.decimal_point == 0x2E,
    {
        WriteFloatOptions { radix: 10, exponent: 0x65, decimal_point: 0x2E }
    }

    pub fn builder() -> (r: WriteFloatOptionsBuilder)
        ensures
            r.radix == 10,
            r.exponent.is_none(),
            r.decimal_point == 0x2E,
    {
        WriteFloatOptionsBuilder { radix: 10, exponent: None, decimal_point: 0x2E }
    }
}

/// Builder of `WriteFloatOptions`; without an explicit marker the radix picks one.
#[derive(Clone, Copy, Debug, PartialEq, Eq)]
pub struct WriteFloatOptionsBuilder {
    pub radix: u32,
    pub exponent: Option<u8>,
    pub decimal_point: u8,
}

impl WriteFloatOptionsBuilder {
    pub fn radix(self, radix: u32) -> (r: WriteFloatOptionsBuilder)
        ensures
            r == (WriteFloatOptionsBuilder { radix, ..self }),
    {
        WriteFloatOptionsBuilder { radix, ..self }
    }

    pub fn exponent(self, exponent: u8) -> (r: WriteFloatOptionsBuilder)
        ensures
            r == (WriteFloatOptionsBuilder { exponent: Some(exponent), ..self }),
    {
        WriteFloatOptionsBuilder { exponent: Some(exponent), ..self }
    }

    pub fn decimal_point(self, decimal_point: u8) -> (r: WriteFloatOptionsBuilder)
        ensures
            r == (WriteFloatOptionsBuilder { decimal_point, ..self }),
    {
        WriteFloatOptionsBuilder { decimal_point, ..self }
    }

    /// The options, or why they are invalid.
    pub fn build(self) -> (r: Result<WriteFloatOptions, OptionsError>)
        ensures
            !(2 <= self.radix <= 36) ==> r == Err::<WriteFloatOptions, OptionsError>(
                OptionsError::InvalidRadix,
            ),
            2 <= self.radix <= 36 ==> {
                let marker = match self.exponent {
                    Some(c) => c,
                    None => default_marker(self.radix as nat),
                };
                if !valid_marker(marker, self.radix as nat) {
                    r == Err::<WriteFloatOptions, OptionsError>(OptionsError::InvalidExponent)
                } else if !valid_grammar(marker, self.decimal_point, self.radix as nat) {
                    r == Err::<WriteFloatOptions, OptionsError>(OptionsError::InvalidDecimalPoint)
                } else {
                    r == Ok::<WriteFloatOptions, OptionsError>(
                        WriteFloatOptions {
                            radix: self.radix,
                            exponent: marker,
                            decimal_point: self.decimal_point,
                        },
                    )
                }
            },
    {
        if self.radix < 2 || self.radix > 36 {
            return Err(OptionsError::InvalidRadix);
        }
        let marker = match self.exponent {
            Some(c) => c,
            None => if self.radix <= 14 {
                0x65
            } else {
                0x5E
            },
        };
        match check_grammar(marker, self.decimal_point, self.radix) {
            Err(e) => Err(e),
            Ok(()) => Ok(
                WriteFloatOptions { radix: self.radix, exponent: marker, decimal_point: self.decimal_point },
            ),
        }
    }
}

} // verus!
