//! Reading a float from bytes: sign, integer digits, fraction, exponent.
use crate::float::FloatKind;
use crate::options::{ascii_lower, digit_of, digit_value, lower_of, ParseFloatOptions};
use crate::parse::{digits_value, parsed_bits, to_native, valid_digits};
use vstd::prelude::*;

verus! {

/// Why no number could be read.
#[derive(Clone, Copy, Debug, PartialEq, Eq, Structural)]
pub enum ErrorCode {
    /// Neither integer nor fraction digits.
    EmptyMantissa,
    /// An exponent marker without digits after it.
    EmptyExponent,
    /// A byte after the number that is not part of it.
    InvalidDigit,
}

/// A parse error and the byte index where it was found.
#[derive(Clone, Copy, Debug, PartialEq, Eq, Structural)]
pub struct ParseError {
    pub code: ErrorCode,
    pub index: usize,
}

/// Exponent magnitudes are read saturating at this value.
pub const EXPONENT_SATURATION: i64 = 0x1_0000_0000;

/// Length of the run of digits of `radix` starting at `start`.
pub open spec fn digit_run(b: Seq<u8>, start: int, radix: nat) -> nat
    decreases b.len() - start,
{
    if 0 <= start < b.len() && digit_value(b[start]) < radix {
        1 + digit_run(b, start + 1, radix)
    } else {
        0
    }
}

pub open spec fn is_sign(c: u8) -> bool {
    c == 0x2B || c == 0x2D
}

pub open spec fn mantissa_start(b: Seq<u8>) -> int {
    if b.len() > 0 && is_sign(b[0]) {
        1
    } else {
        0
    }
}

pub open spec fn int_end(b: Seq<u8>, radix: nat) -> int {
    mantissa_start(b) + digit_run(b, mantissa_start(b), radix)
}

pub open spec fn frac_start(b: Seq<u8>, o: ParseFloatOptions) -> int {
    let e = int_end(b, o.radix as nat);
    if e < b.len() && b[e] == o.decimal_point {
        e + 1
    } else {
        e
    }
}

pub open spec fn frac_end(b: Seq<u8>, o: ParseFloatOptions) -> int {
    frac_start(b, o) + digit_run(b, frac_start(b, o), o.radix as nat)
}

pub open spec fn has_exponent(b: Seq<u8>, o: ParseFloatOptions) -> bool {
    let e = frac_end(b, o);
    e < b.len() && ascii_lower(b[e]) == ascii_lower(o.exponent)
}

pub open spec fn exp_digits_start(b: Seq<u8>, o: ParseFloatOptions) -> int {
    let s = frac_end(b, o) + 1;
    if s < b.len() && is_sign(b[s]) {
        s + 1
    } else {
        s
    }
}

pub open spec fn exp_digits_end(b: Seq<u8>, o: ParseFloatOptions) -> int {
    exp_digits_start(b, o) + digit_run(b, exp_digits_start(b, o), o.radix as nat)
}

/// The digit values of bytes `from..to`.
pub open spec fn digit_values(b: Seq<u8>, from: int, to: int) -> Seq<u8> {
    b.subrange(from, to).map_values(|c: u8| digit_value(c) as u8)
}

/// Integer digits followed by fraction digits.
pub open spec fn mantissa_digits(b: Seq<u8>, o: ParseFloatOptions) -> Seq<u8> {
    digit_values(b, mantissa_start(b), int_end(b, o.radix as nat)) + digit_values(
        b,
        frac_start(b, o),
        frac_end(b, o),
    )
}

/// The written exponent, its magnitude saturated.
pub open spec fn written_exponent(b: Seq<u8>, o: ParseFloatOptions) -> int {
    if !has_exponent(b, o) {
        0
    } else {
        let v = digits_value(
            digit_values(b, exp_digits_start(b, o), exp_digits_end(b, o)),
            o.radix as nat,
        );
        let m: int = if v > EXPONENT_SATURATION {
            EXPONENT_SATURATION as int
        } else {
            v as int
        };
        if b[frac_end(b, o) + 1] == 0x2D {
            -m
        } else {
            m
        }
    }
}

/// The exponent applied to the mantissa digits read as an integer.
pub open spec fn scaled_exponent(b: Seq<u8>, o: ParseFloatOptions) -> int {
    written_exponent(b, o) - (frac_end(b, o) - frac_start(b, o))
}

/// Number of bytes that make up the number.
pub open spec fn consumed(b: Seq<u8>, o: ParseFloatOptions) -> int {
    if has_exponent(b, o) {
        exp_digits_end(b, o)
    } else {
        frac_end(b, o)
    }
}

/// What reading a float of `kind` from the start of `b` gives.
pub open spec fn lex_result(b: Seq<u8>, o: ParseFloatOptions, kind: FloatKind) -> Result<
    (u64, usize),
    ParseError,
> {
    let r = o.radix as nat;
    if int_end(b, r) == mantissa_start(b) && frac_end(b, o) == frac_start(b, o) {
        Err(ParseError { code: ErrorCode::EmptyMantissa, index: mantissa_start(b) as usize })
    } else if has_exponent(b, o) && exp_digits_end(b, o) == exp_digits_start(b, o) {
        Err(ParseError { code: ErrorCode::EmptyExponent, index: exp_digits_start(b, o) as usize })
    } else {
        Ok(
            (
                parsed_bits(
                    kind,
                    mantissa_digits(b, o),
                    scaled_exponent(b, o),
                    r,
                    o.rounding,
                    b.len() > 0 && b[0] == 0x2D,
                ) as u64,
                consumed(b, o) as usize,
            ),
        )
    }
}

proof fn lemma_digit_run_bound(b: Seq<u8>, start: int, radix: nat)
    requires
        0 <= start <= b.len(),
    ensures
        start + digit_run(b, start, radix) <= b.len(),
    decreases b.len() - start,
{
    if start < b.len() {
        lemma_digit_run_bound(b, start + 1, radix);
    }
}

/// End of the run of digits starting at `start`.
fn run_end(b: &[u8], start: usize, radix: u32) -> (r: usize)
    requires
        start <= b@.len(),
    ensures
        r == start + digit_run(b@, start as int, radix as nat),
        r <= b@.len(),
{
    let mut i = start;
    while i < b.len() && (digit_of(b[i]) as u32) < radix
        invariant
            start <= i <= b@.len(),
            digit_run(b@, start as int, radix as nat) == (i - start) + digit_run(
                b@,
                i as int,
                radix as nat,
            ),
        decreases b@.len() - i,
    {
        i = i + 1;
    }
    proof {
        lemma_digit_run_bound(b@, start as int, radix as nat);
    }
    i
}

/// Appends the digit values of bytes `from..to`.
fn push_digits(out: &mut Vec<u8>, b: &[u8], from: usize, to: usize)
    requires
        from <= to <= b@.len(),
    ensures
        final(out)@ == old(out)@ + digit_values(b@, from as int, to as int),
{
    let mut i = from;
    while i < to
        invariant
            from <= i <= to <= b@.len(),
            out@ == old(out)@ + digit_values(b@, from as int, i as int),
        decreases to - i,
    {
        let d = digit_of(b[i]);
        out.push(d);
        proof {
            assert(digit_values(b@, from as int, i + 1) =~= digit_values(b@, from as int, i as int).push(
                d,
            ));
        }
        i = i + 1;
    }
}

/// The value of digits `from..to`, saturating.
fn saturated_value(b: &[u8], from: usize, to: usize, radix: u32) -> (r: i64)
    requires
        from <= to <= b@.len(),
        2 <= radix <= 36,
        forall|i: int| from <= i < to ==> digit_value(b@[i]) < radix,
    ensures
        r == if digits_value(digit_values(b@, from as int, to as int), radix as nat)
            > EXPONENT_SATURATION {
            EXPONENT_SATURATION as int
        } else {
            digits_value(digit_values(b@, from as int, to as int), radix as nat) as int
        },
{
    let mut acc: i64 = 0;
    let mut i = from;
    proof {
        assert(digit_values(b@, from as int, from as int) =~= Seq::<u8>::empty());
    }
    while i < to
        invariant
            from <= i <= to <= b@.len(),
            2 <= radix <= 36,
            forall|j: int| from <= j < to ==> digit_value(b@[j]) < radix,
            acc == if digits_value(digit_values(b@, from as int, i as int), radix as nat)
                > EXPONENT_SATURATION {
                EXPONENT_SATURATION as int
            } else {
                digits_value(digit_values(b@, from as int, i as int), radix as nat) as int
            },
        decreases to - i,
    {
        let d = digit_of(b[i]);
        let ghost v0 = digits_value(digit_values(b@, from as int, i as int), radix as nat);
        proof {
            let s1 = digit_values(b@, from as int, i + 1);
            assert(s1.drop_last() =~= digit_values(b@, from as int, i as int));
            assert(s1.last() == d);
            if v0 > EXPONENT_SATURATION {
                assert(v0 * radix >= v0) by (nonlinear_arith)
                    requires
                        radix >= 2,
                ;
            }
        }
        proof {
            assert(acc * radix <= EXPONENT_SATURATION * 36) by (nonlinear_arith)
                requires
                    0 <= acc <= EXPONENT_SATURATION,
                    radix <= 36,
            ;
            assert(d < radix) by {
                assert(from <= i < to);
            }
        }
        let next = acc * (radix as i64) + (d as i64);
        proof {
            let v1 = digits_value(digit_values(b@, from as int, i + 1), radix as nat);
            assert(v1 == v0 * radix + d);
            if v0 > EXPONENT_SATURATION {
                assert(v1 > EXPONENT_SATURATION);
                assert(next > EXPONENT_SATURATION) by (nonlinear_arith)
                    requires
                        acc == EXPONENT_SATURATION,
                        radix >= 2,
                        next == acc * radix + d,
                        d >= 0,
                ;
            } else {
                assert(next == v1);
            }
        }
        if next > EXPONENT_SATURATION {
            acc = EXPONENT_SATURATION;
        } else {
            acc = next;
        }
        i = i + 1;
    }
    acc
}

/// Reads the exponent that may follow the mantissa, which ends at `fe`.
fn read_exponent(b: &[u8], fe: usize, o: &ParseFloatOptions) -> (r: Result<(i64, usize), ParseError>)
    requires
        o.valid(),
        fe == frac_end(b@, *o),
        fe <= b@.len(),
    ensures
        match r {
            Ok((e, end)) => {
                &&& !(has_exponent(b@, *o) && exp_digits_end(b@, *o) == exp_digits_start(b@, *o))
                &&& e == written_exponent(b@, *o)
                &&& end == consumed(b@, *o)
                &&& -EXPONENT_SATURATION <= e <= EXPONENT_SATURATION
            },
            Err(err) => {
                &&& has_exponent(b@, *o)
                &&& exp_digits_end(b@, *o) == exp_digits_start(b@, *o)
                &&& err == ParseError {
                    code: ErrorCode::EmptyExponent,
                    index: exp_digits_start(b@, *o) as usize,
                }
            },
        },
{
    let radix = o.radix;
    if !(fe < b.len() && lower_of(b[fe]) == lower_of(o.exponent)) {
        return Ok((0, fe));
    }
    let s = fe + 1;
    let es = if s < b.len() && (b[s] == 0x2B || b[s] == 0x2D) {
        s + 1
    } else {
        s
    };
    let ee = run_end(b, es, radix);
    if ee == es {
        return Err(ParseError { code: ErrorCode::EmptyExponent, index: es });
    }
    proof {
        assert forall|i: int| es <= i < ee implies digit_value(b@[i]) < radix by {
            lemma_run_digits(b@, es as int, radix as nat, i);
        }
    }
    let m = saturated_value(b, es, ee, radix);
    let e = if b[s] == 0x2D {
        0 - m
    } else {
        m
    };
    Ok((e, ee))
}

/// Reads a float of `kind` from the start of `bytes`: an optional sign,
/// digits with an optional decimal point, then an optional exponent marker with an
/// optional sign and digits, all in the options' radix. Returns the bits of
/// the correctly rounded value and the number of bytes read.
#[verifier::rlimit(50)]
pub fn parse_partial(kind: FloatKind, bytes: &[u8], options: &ParseFloatOptions) -> (r: Result<
    (u64, usize),
    ParseError,
>)
    requires
        options.valid(),
        bytes@.len() <= 0x1000_0000,
    ensures
        r == lex_result(bytes@, *options, kind),
{
    let b = bytes;
    let radix = options.radix;
    let negative = b.len() > 0 && b[0] == 0x2D;
    let ms: usize = if b.len() > 0 && (b[0] == 0x2B || b[0] == 0x2D) {
        1
    } else {
        0
    };
    let ie = run_end(b, ms, radix);
    let fs = if ie < b.len() && b[ie] == options.decimal_point {
        ie + 1
    } else {
        ie
    };
    let fe = run_end(b, fs, radix);
    if ie == ms && fe == fs {
        return Err(ParseError { code: ErrorCode::EmptyMantissa, index: ms });
    }
    let (exp, end) = match read_exponent(b, fe, options) {
        Ok(v) => v,
        Err(err) => {
            return Err(err);
        },
    };
    let mut digits: Vec<u8> = Vec::new();
    push_digits(&mut digits, b, ms, ie);
    push_digits(&mut digits, b, fs, fe);
    proof {
        assert(digits@ =~= mantissa_digits(b@, *options));
        assert forall|i: int| 0 <= i < digits@.len() implies digits@[i] < radix by {
            if i < ie - ms {
                lemma_run_digits(b@, ms as int, radix as nat, ms + i);
            } else {
                lemma_run_digits(b@, fs as int, radix as nat, fs + i - (ie - ms));
            }
        }
    }
    let e = exp - ((fe - fs) as i64);
    let bits = to_native(kind, &digits, e, radix, negative, options.rounding);
    Ok((bits, end))
}

proof fn lemma_run_digits(b: Seq<u8>, start: int, radix: nat, i: int)
    requires
        0 <= start <= i < start + digit_run(b, start, radix),
    ensures
        digit_value(b[i]) < radix,
    decreases i - start,
{
    if i > start {
        lemma_run_digits(b, start + 1, radix, i);
    }
}

/// Reads a float of `kind` that must span all of `bytes`.
pub fn parse_complete(kind: FloatKind, bytes: &[u8], options: &ParseFloatOptions) -> (r: Result<
    u64,
    ParseError,
>)
    requires
        options.valid(),
        bytes@.len() <= 0x1000_0000,
    ensures
        r == match lex_result(bytes@, *options, kind) {
            Ok((bits, n)) => if n == bytes@.len() {
                Ok(bits)
            } else {
                Err(ParseError { code: ErrorCode::InvalidDigit, index: n })
            },
            Err(e) => Err(e),
        },
{
    match parse_partial(kind, bytes, options) {
        Ok((bits, n)) => if n == bytes.len() {
            Ok(bits)
        } else {
            Err(ParseError { code: ErrorCode::InvalidDigit, index: n })
        },
        Err(e) => Err(e),
    }
}

} // verus!
