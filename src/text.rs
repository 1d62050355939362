//! Writing a float as text in scientific notation.
use crate::digits::{
    char_of, digit_char, digit_chars, integer_chars, lemma_radix_digits, radix_digits, write_integer,
};
use crate::float::{inf_bits, sign_bits, FloatKind, RoundingKind};
use crate::lexer::{
    consumed, digit_run, digit_values, exp_digits_end, exp_digits_start, frac_end, frac_start,
    has_exponent, int_end, is_sign, lex_result, mantissa_digits, mantissa_start, scaled_exponent,
    written_exponent, EXPONENT_SATURATION,
};
use crate::options::{ascii_lower, digit_value, valid_marker, ParseFloatOptions, WriteFloatOptions};
use crate::parse::{digits_value, magnitude_bits, parsed_bits, valid_digits};
use crate::write::{format_shortest, is_shortest, lemma_format_round_trip};
use vstd::prelude::*;

verus! {

/// Text of `ds * r^e`: sign, first digit, point and further digits, then the
/// marker and the exponent of the first digit in radix `r`.
pub open spec fn sci_text(
    negative: bool,
    ds: Seq<u8>,
    e: int,
    r: nat,
    marker: u8,
    point: u8,
) -> Seq<u8> {
    let n = ds.len();
    let s = e + n - 1;
    let sign: Seq<u8> = if negative {
        seq![0x2Du8]
    } else {
        Seq::empty()
    };
    let frac: Seq<u8> = if n > 1 {
        seq![point] + digit_chars(ds.skip(1))
    } else {
        Seq::empty()
    };
    let exp_sign: Seq<u8> = if s < 0 {
        seq![0x2Du8]
    } else {
        Seq::empty()
    };
    let mag: nat = if s < 0 {
        (-s) as nat
    } else {
        s as nat
    };
    sign + seq![digit_char(ds[0])] + frac + seq![marker] + exp_sign + integer_chars(mag, r)
}

/// Writes `ds * radix^e` as `sci_text` does.
pub fn compose(negative: bool, ds: &Vec<u8>, e: i64, radix: u32, marker: u8, point: u8) -> (r: Vec<u8>)
    requires
        2 <= radix <= 36,
        valid_digits(ds@, radix as nat),
        1 <= ds@.len() <= 0x1_0000,
        -0x1_0000_0000 <= e <= 0x1_0000_0000,
    ensures
        r@ == sci_text(negative, ds@, e as int, radix as nat, marker, point),
{
    let n = ds.len();
    let mut out: Vec<u8> = Vec::new();
    if negative {
        out.push(0x2D);
    }
    out.push(char_of(ds[0]));
    let ghost head = out@;
    if n > 1 {
        out.push(point);
        let mut i: usize = 1;
        proof {
            assert(ds@.subrange(1, 1) =~= Seq::<u8>::empty());
            assert(out@ =~= head + seq![point] + digit_chars(ds@.subrange(1, 1)));
        }
        while i < n
            invariant
                1 <= i <= n == ds@.len(),
                valid_digits(ds@, radix as nat),
                radix <= 36,
                out@ == head + seq![point] + digit_chars(ds@.subrange(1, i as int)),
            decreases n - i,
        {
            let c = char_of(ds[i]);
            out.push(c);
            proof {
                assert(digit_chars(ds@.subrange(1, i + 1)) =~= digit_chars(
                    ds@.subrange(1, i as int),
                ).push(c));
            }
            i = i + 1;
        }
        proof {
            assert(ds@.subrange(1, n as int) =~= ds@.skip(1));
        }
    }
    out.push(marker);
    let s: i64 = e + (n as i64) - 1;
    if s < 0 {
        out.push(0x2D);
    }
    let mag: u128 = if s < 0 {
        (0 - s) as u128
    } else {
        s as u128
    };
    let tail = write_integer(mag, radix);
    let mut j: usize = 0;
    let ghost before = out@;
    while j < tail.len()
        invariant
            0 <= j <= tail@.len(),
            out@ == before + tail@.subrange(0, j as int),
        decreases tail@.len() - j,
    {
        out.push(tail[j]);
        proof {
            assert(tail@.subrange(0, j + 1) =~= tail@.subrange(0, j as int).push(tail@[j as int]));
        }
        j = j + 1;
    }
    proof {
        assert(tail@.subrange(0, tail@.len() as int) =~= tail@);
        let sign: Seq<u8> = if negative {
            seq![0x2Du8]
        } else {
            Seq::empty()
        };
        assert(head =~= sign + seq![digit_char(ds@[0])]);
        let frac: Seq<u8> = if n > 1 {
            seq![point] + digit_chars(ds@.skip(1))
        } else {
            Seq::empty()
        };
        let exp_sign: Seq<u8> = if s < 0 {
            seq![0x2Du8]
        } else {
            Seq::empty()
        };
        assert(out@ =~= sign + seq![digit_char(ds@[0])] + frac + seq![marker] + exp_sign + tail@);
    }
    out
}

/// Finite float bits: the magnitude below infinity, within the format's width.
pub open spec fn finite_bits(kind: FloatKind, bits: nat) -> bool {
    bits < 2 * sign_bits(kind) && bits % sign_bits(kind) < inf_bits(kind)
}

/// `text` is what `write_float` gives for `bits`: `0` (signed) for zero, else
/// the sign and the shortest digits in scientific notation.
pub open spec fn writes_as(kind: FloatKind, bits: nat, o: WriteFloatOptions, text: Seq<u8>) -> bool {
    let negative = bits >= sign_bits(kind);
    let mag = bits % sign_bits(kind);
    &&& mag == 0 ==> text == (if negative {
        seq![0x2Du8, 0x30u8]
    } else {
        seq![0x30u8]
    })
    &&& mag > 0 ==> exists|ds: Seq<u8>, e: int|
        {
            &&& is_shortest(kind, mag, o.radix as nat, ds, e)
            &&& valid_digits(ds, o.radix as nat)
            &&& 1 <= ds.len() <= 57
            &&& -80000 <= e <= 80000
            &&& text == sci_text(negative, ds, e, o.radix as nat, o.exponent, o.decimal_point)
        }
}

/// Writes a finite float in the options' radix: `0` for zero, else the
/// shortest digits that read back as the same float, in scientific notation.
pub fn write_float(kind: FloatKind, bits: u64, options: &WriteFloatOptions) -> (r: Vec<u8>)
    requires
        options.valid(),
        finite_bits(kind, bits as nat),
    ensures
        writes_as(kind, bits as nat, *options, r@),
{
    let sign = kind.sign_mask();
    let negative = bits >= sign;
    let mag = bits % sign;
    if mag == 0 {
        let mut out: Vec<u8> = Vec::new();
        if negative {
            out.push(0x2D);
        }
        out.push(0x30);
        proof {
            if negative {
                assert(out@ =~= seq![0x2Du8, 0x30u8]);
            } else {
                assert(out@ =~= seq![0x30u8]);
            }
        }
        return out;
    }
    let (ds, e) = format_shortest(kind, mag, options.radix);
    let out = compose(negative, &ds, e, options.radix, options.exponent, options.decimal_point);
    out
}

/// A digit's character reads back as the digit, and is neither sign nor point.
proof fn lemma_char_value(d: u8)
    requires
        d < 36,
    ensures
        digit_value(digit_char(d)) == d,
        !is_sign(digit_char(d)),
{
}

/// A run of digits that ends at `end` has length `end - start`.
proof fn lemma_run_exact(b: Seq<u8>, start: int, end: int, r: nat)
    requires
        0 <= start <= end <= b.len(),
        forall|i: int| start <= i < end ==> digit_value(b[i]) < r,
        end == b.len() || digit_value(b[end]) >= r,
    ensures
        digit_run(b, start, r) == end - start,
    decreases end - start,
{
    if start < end {
        lemma_run_exact(b, start + 1, end, r);
    }
}

/// The characters of a digit sequence read back as the sequence.
proof fn lemma_chars_read_back(ds: Seq<u8>, r: nat)
    requires
        r <= 36,
        valid_digits(ds, r),
    ensures
        digit_chars(ds).len() == ds.len(),
        forall|i: int| 0 <= i < ds.len() ==> digit_value(#[trigger] digit_chars(ds)[i]) == ds[i],
        digit_chars(ds).map_values(|c: u8| digit_value(c) as u8) == ds,
{
    assert forall|i: int| 0 <= i < ds.len() implies digit_value(#[trigger] digit_chars(ds)[i])
        == ds[i] by {
        lemma_char_value(ds[i]);
    }
    assert(digit_chars(ds).map_values(|c: u8| digit_value(c) as u8) =~= ds);
}

/// Scientific text lexes back to its digits and exponent.
#[verifier::rlimit(100)]
pub proof fn lemma_sci_text_lexes(
    kind: FloatKind,
    negative: bool,
    ds: Seq<u8>,
    e: int,
    o: ParseFloatOptions,
)
    requires
        o.valid(),
        valid_digits(ds, o.radix as nat),
        1 <= ds.len() <= 57,
        -80000 <= e <= 80000,
    ensures
        lex_result(sci_text(negative, ds, e, o.radix as nat, o.exponent, o.decimal_point), o, kind) == Ok::<
            (u64, usize),
            crate::lexer::ParseError,
        >(
            (
                parsed_bits(kind, ds, e, o.radix as nat, o.rounding, negative) as u64,
                sci_text(negative, ds, e, o.radix as nat, o.exponent, o.decimal_point).len() as usize,
            ),
        ),
{
    let r = o.radix as nat;
    let marker = o.exponent;
    let point = o.decimal_point;
    let t = sci_text(negative, ds, e, r, marker, point);
    let n = ds.len();
    let s = e + n - 1;
    let sign: Seq<u8> = if negative {
        seq![0x2Du8]
    } else {
        Seq::empty()
    };
    let rest = digit_chars(ds.skip(1));
    let frac: Seq<u8> = if n > 1 {
        seq![point] + rest
    } else {
        Seq::empty()
    };
    let exp_sign: Seq<u8> = if s < 0 {
        seq![0x2Du8]
    } else {
        Seq::empty()
    };
    let mag: nat = if s < 0 {
        (-s) as nat
    } else {
        s as nat
    };
    let tail = integer_chars(mag, r);
    let tail_digits: Seq<u8> = if mag == 0 {
        seq![0u8]
    } else {
        radix_digits(mag, r)
    };
    lemma_radix_digits(mag, r);
    assert(valid_digits(ds.skip(1), r)) by {
        assert forall|i: int| 0 <= i < ds.skip(1).len() implies ds.skip(1)[i] < r by {
            assert(ds.skip(1)[i] == ds[i + 1]);
        }
    }
    lemma_chars_read_back(ds.skip(1), r);
    assert(valid_digits(tail_digits, r));
    lemma_chars_read_back(tail_digits, r);
    assert(tail == digit_chars(tail_digits)) by {
        if mag == 0 {
            assert(digit_chars(seq![0u8]) =~= seq![0x30u8]);
        }
    }
    lemma_char_value(ds[0]);
    let c0 = digit_char(ds[0]);
    let sl = sign.len() as int;
    let m = sl + 1 + frac.len();
    let es = m + 1 + exp_sign.len();
    assert(t == sign + seq![c0] + frac + seq![marker] + exp_sign + tail);
    assert(t.len() == es + tail.len());
    // Index facts.
    assert(t[sl] == c0);
    assert(negative ==> t[0] == 0x2D);
    assert(!negative ==> t[0] == c0);
    assert(n > 1 ==> t[sl + 1] == point);
    assert(marker != point);
    assert forall|i: int| sl + 2 <= i < m implies t[i] == rest[i - sl - 2] by {
        assert(n > 1);
    }
    assert(t[m] == marker);
    assert(s < 0 ==> t[m + 1] == 0x2D);
    assert forall|i: int| es <= i < t.len() implies t[i] == tail[i - es] by {}
    assert(tail.len() >= 1);
    assert(!is_sign(tail[0])) by {
        lemma_char_value(tail_digits[0]);
    }
    // The lexer's positions.
    assert(mantissa_start(t) == sl);
    assert(digit_value(marker) >= r);
    lemma_run_exact(t, sl, sl + 1, r);
    assert(int_end(t, r) == sl + 1);
    if n > 1 {
        assert(frac_start(t, o) == sl + 2);
        assert forall|i: int| sl + 2 <= i < m implies digit_value(t[i]) < r by {
            assert(digit_value(rest[i - sl - 2]) == ds.skip(1)[i - sl - 2]);
        }
        lemma_run_exact(t, sl + 2, m, r);
    } else {
        assert(frac_start(t, o) == m);
        lemma_run_exact(t, m, m, r);
    }
    assert(frac_end(t, o) == m);
    assert(has_exponent(t, o));
    assert(exp_digits_start(t, o) == es);
    assert forall|i: int| es <= i < t.len() implies digit_value(t[i]) < r by {
        assert(digit_value(tail[i - es]) == tail_digits[i - es]);
    }
    lemma_run_exact(t, es, t.len() as int, r);
    assert(exp_digits_end(t, o) == t.len());
    // The values read.
    assert(digit_values(t, sl, sl + 1) =~= seq![ds[0]]);
    assert(digit_values(t, frac_start(t, o), m) =~= ds.skip(1)) by {
        if n > 1 {
            assert(t.subrange(sl + 2, m) =~= rest);
        }
    }
    assert(mantissa_digits(t, o) =~= ds);
    assert(t.subrange(es, t.len() as int) =~= tail);
    assert(digit_values(t, es, t.len() as int) =~= tail_digits);
    assert(digits_value(tail_digits, r) == mag) by {
        if mag == 0 {
            assert(seq![0u8].drop_last() =~= Seq::<u8>::empty());
            assert(digits_value(Seq::<u8>::empty(), r) == 0);
            assert(seq![0u8].last() == 0);
            assert(0 * r == 0);
        }
    }
    assert(written_exponent(t, o) == s);
    assert(scaled_exponent(t, o) == e);
    assert(consumed(t, o) == t.len());
}

/// Round trip through text: what `write_float` writes for a finite float,
/// read back by the lexer with the same radix and exponent marker and
/// nearest-even rounding, is the same float, and all of it is read.
pub proof fn lemma_text_round_trip(
    kind: FloatKind,
    bits: nat,
    wo: WriteFloatOptions,
    po: ParseFloatOptions,
    text: Seq<u8>,
)
    requires
        wo.valid(),
        po.radix == wo.radix,
        po.exponent == wo.exponent,
        po.decimal_point == wo.decimal_point,
        po.rounding == RoundingKind::NearestTiesEven,
        finite_bits(kind, bits),
        writes_as(kind, bits, wo, text),
    ensures
        lex_result(text, po, kind) == Ok::<(u64, usize), crate::lexer::ParseError>(
            (bits as u64, text.len() as usize),
        ),
{
    let r = wo.radix as nat;
    let sb = sign_bits(kind);
    let negative = bits >= sb;
    let mag = bits % sb;
    assert(bits == mag + if negative {
        sb
    } else {
        0
    }) by {
        vstd::arithmetic::div_mod::lemma_fundamental_div_mod(bits as int, sb as int);
        if negative {
            vstd::arithmetic::div_mod::lemma_fundamental_div_mod_converse(bits as int, sb as int, 1, bits - sb);
        } else {
            vstd::arithmetic::div_mod::lemma_fundamental_div_mod_converse(bits as int, sb as int, 0, bits as int);
        }
    }
    if mag == 0 {
        let sl: int = if negative {
            1
        } else {
            0
        };
        assert(text[sl] == 0x30);
        assert(negative ==> text[0] == 0x2D);
        assert(mantissa_start(text) == sl);
        lemma_run_exact(text, sl, sl + 1, r);
        assert(int_end(text, r) == sl + 1);
        assert(frac_start(text, po) == sl + 1);
        lemma_run_exact(text, sl + 1, sl + 1, r);
        assert(frac_end(text, po) == sl + 1);
        assert(!has_exponent(text, po));
        assert(mantissa_digits(text, po) =~= seq![0u8]);
        assert(seq![0u8].drop_last() =~= Seq::<u8>::empty());
        assert(digits_value(Seq::<u8>::empty(), r) == 0);
        assert(seq![0u8].last() == 0);
        assert(0 * r == 0);
        assert(digits_value(seq![0u8], r) == 0);
    } else {
        let (ds, e) = choose|ds: Seq<u8>, e: int|
            {
                &&& is_shortest(kind, mag, r, ds, e)
                &&& valid_digits(ds, r)
                &&& 1 <= ds.len() <= 57
                &&& -80000 <= e <= 80000
                &&& text == sci_text(negative, ds, e, r, wo.exponent, wo.decimal_point)
            };
        assert(po.valid());
        lemma_sci_text_lexes(kind, negative, ds, e, po);
        lemma_format_round_trip(kind, mag, r, ds, e);
        let nte = RoundingKind::NearestTiesEven;
        assert(magnitude_bits(kind, ds, e, r, nte, negative) == magnitude_bits(
            kind,
            ds,
            e,
            r,
            nte,
            false,
        ));
    }
}

} // verus!
