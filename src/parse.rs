//! Correctly rounded conversion of a tokenized digit stream to float bits.
use crate::bignat::BigNat;
use crate::float::{
    encode_exact, inf_bits, is_ulp_exp, lemma_pow_base_mono, lemma_ulp_exp_exists,
    lemma_ulp_exp_unique, mant_bits, min_exp, ratio_bits, rounded_at, round_ratio, scaled_den,
    scaled_num, sign_bits, ulp_exp, FloatKind, RoundingKind,
};
use crate::write::{distance, lemma_nearest_float, units};
use vstd::arithmetic::power2::*;
use vstd::arithmetic::power::*;
use vstd::prelude::*;

verus! {

/// Past this exponent the result is infinity; with the exponent plus the digit
/// count below its negation the result is zero.
pub const EXPONENT_CAP: i64 = 1200;

/// Value of big-endian digits in the given radix.
pub open spec fn digits_value(ds: Seq<u8>, radix: nat) -> nat
    decreases ds.len(),
{
    if ds.len() == 0 {
        0
    } else {
        digits_value(ds.drop_last(), radix) * radix + ds.last() as nat
    }
}

/// Every digit is below the radix.
pub open spec fn valid_digits(ds: Seq<u8>, radix: nat) -> bool {
    forall|i: int| 0 <= i < ds.len() ==> ds[i] < radix
}

/// Bits of the float nearest `digits * radix^exponent` under `mode`, before the sign.
pub open spec fn magnitude_bits(
    kind: FloatKind,
    ds: Seq<u8>,
    exponent: int,
    radix: nat,
    mode: RoundingKind,
    negative: bool,
) -> nat {
    let n = digits_value(ds, radix);
    if n == 0 {
        0
    } else if exponent > EXPONENT_CAP {
        inf_bits(kind)
    } else if exponent + ds.len() < -EXPONENT_CAP {
        0
    } else if exponent >= 0 {
        ratio_bits(kind, n * pow(radix as int, exponent as nat) as nat, 1, mode, negative)
    } else {
        ratio_bits(kind, n, pow(radix as int, (-exponent) as nat) as nat, mode, negative)
    }
}

/// Bits of the parsed float, sign included.
pub open spec fn parsed_bits(
    kind: FloatKind,
    ds: Seq<u8>,
    exponent: int,
    radix: nat,
    mode: RoundingKind,
    negative: bool,
) -> nat {
    magnitude_bits(kind, ds, exponent, radix, mode, negative) + if negative {
        sign_bits(kind)
    } else {
        0
    }
}

/// The value of a digit sequence as a big natural.
pub fn digits_to_bignat(digits: &Vec<u8>, radix: u32) -> (r: BigNat)
    requires
        valid_digits(digits@, radix as nat),
    ensures
        r@ == digits_value(digits@, radix as nat),
        r.limbs@.len() <= digits@.len() + 1,
{
    let mut n = BigNat::from_u32(0);
    let mut i: usize = 0;
    proof {
        assert(digits@.take(0) =~= Seq::<u8>::empty());
    }
    while i < digits.len()
        invariant
            0 <= i <= digits@.len(),
            valid_digits(digits@, radix as nat),
            n@ == digits_value(digits@.take(i as int), radix as nat),
            n.limbs@.len() <= i + 1,
        decreases digits@.len() - i,
    {
        n.mul_small_add(radix, digits[i] as u32);
        proof {
            assert(digits@.take(i + 1).drop_last() =~= digits@.take(i as int));
        }
        i = i + 1;
    }
    proof {
        assert(digits@.take(i as int) =~= digits@);
    }
    n
}

/// Parses a tokenized number: `digits` read in `radix`, times `radix` raised
/// to `exponent`, rounded to the nearest float of `kind` under `rounding`;
/// `negative` sets the sign. The conversion is exact before rounding, so the
/// result never depends on an approximation. Streams of up to 2^28 digits
/// are taken, which keeps every intermediate size within machine words.
pub fn to_native(
    kind: FloatKind,
    digits: &Vec<u8>,
    exponent: i64,
    radix: u32,
    negative: bool,
    rounding: RoundingKind,
) -> (r: u64)
    requires
        2 <= radix <= 36,
        valid_digits(digits@, radix as nat),
        digits@.len() <= 0x1000_0000,
    ensures
        r == parsed_bits(kind, digits@, exponent as int, radix as nat, rounding, negative),
{
    let sign: u64 = if negative {
        kind.sign_mask()
    } else {
        0
    };
    let mag = magnitude(kind, digits, exponent, radix, negative, rounding);
    proof {
        assert(inf_bits(kind) < sign_bits(kind));
    }
    mag + sign
}

/// `digits * radix^exponent` when it is below `2^(M + 1)`.
fn small_value(kind: FloatKind, digits: &Vec<u8>, exponent: i64, radix: u32) -> (r: Option<u64>)
    requires
        2 <= radix <= 36,
        valid_digits(digits@, radix as nat),
        exponent >= 0,
    ensures
        r matches Some(v) ==> v == digits_value(digits@, radix as nat) * pow(radix as int, exponent as nat)
            && v < pow(2, mant_bits(kind) + 1),
{
    let limit = 2 * kind.mantissa_unit();
    let mut acc: u64 = 0;
    let mut i: usize = 0;
    proof {
        assert(digits@.take(0) =~= Seq::<u8>::empty());
    }
    while i < digits.len()
        invariant
            0 <= i <= digits@.len(),
            valid_digits(digits@, radix as nat),
            2 <= radix <= 36,
            limit <= 0x20_0000_0000_0000,
            acc < limit,
            acc == digits_value(digits@.take(i as int), radix as nat),
        decreases digits@.len() - i,
    {
        proof {
            assert(digits@.take(i + 1).drop_last() =~= digits@.take(i as int));
            assert(digits@[i as int] < radix);
            assert(acc * radix <= 0x20_0000_0000_0000 * 36) by (nonlinear_arith)
                requires
                    acc < 0x20_0000_0000_0000,
                    radix <= 36,
            ;
        }
        acc = acc * (radix as u64) + (digits[i] as u64);
        if acc >= limit {
            return None;
        }
        i = i + 1;
    }
    proof {
        assert(digits@.take(i as int) =~= digits@);
        lemma_pow0(radix as int);
    }
    let ghost n = digits_value(digits@, radix as nat);
    let mut j: i64 = 0;
    while j < exponent
        invariant
            0 <= j <= exponent,
            2 <= radix <= 36,
            limit <= 0x20_0000_0000_0000,
            acc < limit,
            acc == n * pow(radix as int, j as nat),
        decreases exponent - j,
    {
        proof {
            lemma_pow_adds(radix as int, j as nat, 1);
            lemma_pow1(radix as int);
            let w = pow(radix as int, j as nat);
            assert(n * (w * radix) == n * w * radix) by (nonlinear_arith);
            assert(acc * radix <= 0x20_0000_0000_0000 * 36) by (nonlinear_arith)
                requires
                    acc < 0x20_0000_0000_0000,
                    radix <= 36,
            ;
        }
        acc = acc * (radix as u64);
        if acc >= limit {
            return None;
        }
        j = j + 1;
    }
    Some(acc)
}

/// Multiplies `n` by `radix^e`; a power-of-two radix takes a plain shift.
fn mul_radix_pow(n: &mut BigNat, radix: u32, e: u64)
    requires
        2 <= radix <= 36,
        e <= 0x2000_0000,
    ensures
        final(n)@ == old(n)@ * pow(radix as int, e as nat),
        final(n).limbs@.len() <= old(n).limbs@.len() + 5 * e + 1,
{
    let b: u64 = match radix {
        2 => 1,
        4 => 2,
        8 => 3,
        16 => 4,
        32 => 5,
        _ => 0,
    };
    if b > 0 {
        proof {
            lemma2_to64();
            lemma_pow2(b as nat);
            lemma_pow_multiplies(2, b as nat, e as nat);
            assert(pow(2, b as nat) == radix);
        }
        n.shl(b * e);
    } else {
        n.mul_pow(radix, e);
    }
}

fn magnitude(
    kind: FloatKind,
    digits: &Vec<u8>,
    exponent: i64,
    radix: u32,
    negative: bool,
    rounding: RoundingKind,
) -> (r: u64)
    requires
        2 <= radix <= 36,
        valid_digits(digits@, radix as nat),
        digits@.len() <= 0x1000_0000,
    ensures
        r == magnitude_bits(kind, digits@, exponent as int, radix as nat, rounding, negative),
        r <= inf_bits(kind),
{
    if 0 <= exponent && exponent <= EXPONENT_CAP {
        // Fast path: an integer value small enough to be held exactly.
        if let Some(v) = small_value(kind, digits, exponent, radix) {
            if v == 0 {
                proof {
                    lemma_pow_positive(radix as int, exponent as nat);
                    let w = pow(radix as int, exponent as nat);
                    let n = digits_value(digits@, radix as nat);
                    assert(n == 0) by (nonlinear_arith)
                        requires
                            n * w == 0,
                            w > 0,
                    ;
                }
                return 0;
            }
            proof {
                lemma_pow_positive(radix as int, exponent as nat);
                let w = pow(radix as int, exponent as nat);
                let n = digits_value(digits@, radix as nat);
                assert(n > 0) by (nonlinear_arith)
                    requires
                        n * w == v,
                        v > 0,
                ;
            }
            return encode_exact(kind, v, rounding, negative);
        }
    }
    let mut n = digits_to_bignat(digits, radix);
    if n.is_zero() {
        return 0;
    }
    if exponent > EXPONENT_CAP {
        return kind.infinity_bits();
    }
    if exponent + (digits.len() as i64) < -EXPONENT_CAP {
        return 0;
    }
    if exponent >= 0 {
        mul_radix_pow(&mut n, radix, exponent as u64);
        let one = BigNat::from_u32(1);
        proof {
            lemma_pow_positive(radix as int, exponent as nat);
            let v = digits_value(digits@, radix as nat);
            let w = pow(radix as int, exponent as nat);
            assert(v * w > 0) by (nonlinear_arith)
                requires
                    v > 0,
                    w > 0,
            ;
        }
        round_ratio(kind, &n, &one, rounding, negative)
    } else {
        let mut d = BigNat::from_u32(1);
        mul_radix_pow(&mut d, radix, (0 - exponent) as u64);
        proof {
            lemma_pow_positive(radix as int, (0 - exponent) as nat);
        }
        round_ratio(kind, &n, &d, rounding, negative)
    }
}

/// Parses a tokenized number given as integer digits, fraction digits and a
/// scientific exponent: the value is `integer.fraction * radix^exponent`.
pub fn parse_tokens(
    kind: FloatKind,
    integer_digits: &Vec<u8>,
    fraction_digits: &Vec<u8>,
    exponent: i64,
    radix: u32,
    negative: bool,
    rounding: RoundingKind,
) -> (r: u64)
    requires
        2 <= radix <= 36,
        valid_digits(integer_digits@, radix as nat),
        valid_digits(fraction_digits@, radix as nat),
        integer_digits@.len() + fraction_digits@.len() <= 0x1000_0000,
    ensures
        r == parsed_bits(
            kind,
            integer_digits@ + fraction_digits@,
            exponent - fraction_digits@.len(),
            radix as nat,
            rounding,
            negative,
        ),
{
    let mut digits = integer_digits.clone();
    let mut i: usize = 0;
    proof {
        assert(digits@ =~= integer_digits@ + fraction_digits@.take(0));
    }
    while i < fraction_digits.len()
        invariant
            0 <= i <= fraction_digits@.len(),
            digits@ == integer_digits@ + fraction_digits@.take(i as int),
        decreases fraction_digits@.len() - i,
    {
        digits.push(fraction_digits[i]);
        proof {
            assert(fraction_digits@.take(i + 1) =~= fraction_digits@.take(i as int).push(
                fraction_digits@[i as int],
            ));
            assert(digits@ =~= integer_digits@ + fraction_digits@.take(i + 1));
        }
        i = i + 1;
    }
    proof {
        assert(fraction_digits@.take(i as int) =~= fraction_digits@);
        let all = integer_digits@ + fraction_digits@;
        assert forall|j: int| 0 <= j < all.len() implies all[j] < radix by {
            if j < integer_digits@.len() {
                assert(all[j] == integer_digits@[j]);
            } else {
                assert(all[j] == fraction_digits@[j - integer_digits@.len()]);
            }
        }
    }
    let flen = fraction_digits.len() as i64;
    if exponent < i64::MIN + flen {
        // Far below the cap: the magnitude is zero whatever the digits.
        let sign: u64 = if negative {
            kind.sign_mask()
        } else {
            0
        };
        return sign;
    }
    to_native(kind, &digits, exponent - flen, radix, negative, rounding)
}

/// Numerator of `digits * radix^exponent` as a ratio of naturals.
pub open spec fn exact_num(ds: Seq<u8>, exponent: int, radix: nat) -> nat {
    if exponent >= 0 {
        digits_value(ds, radix) * pow(radix as int, exponent as nat) as nat
    } else {
        digits_value(ds, radix)
    }
}

/// Denominator of `digits * radix^exponent` as a ratio of naturals.
pub open spec fn exact_den(exponent: int, radix: nat) -> nat {
    if exponent >= 0 {
        1
    } else {
        pow(radix as int, (-exponent) as nat) as nat
    }
}

/// Bits of the float nearest `digits * radix^exponent` under `mode`, before
/// the sign, with no cap on the exponent.
pub open spec fn exact_magnitude(
    kind: FloatKind,
    ds: Seq<u8>,
    exponent: int,
    radix: nat,
    mode: RoundingKind,
    negative: bool,
) -> nat {
    if digits_value(ds, radix) == 0 {
        0
    } else {
        ratio_bits(kind, exact_num(ds, exponent, radix), exact_den(exponent, radix), mode, negative)
    }
}

/// Digits are worth less than the radix raised to their count.
pub proof fn lemma_digits_value_bound(ds: Seq<u8>, r: nat)
    requires
        r >= 2,
        valid_digits(ds, r),
    ensures
        digits_value(ds, r) < pow(r as int, ds.len()),
    decreases ds.len(),
{
    reveal(pow);
    if ds.len() > 0 {
        let d1 = ds.drop_last();
        assert(valid_digits(d1, r)) by {
            assert forall|i: int| 0 <= i < d1.len() implies d1[i] < r by {
                assert(d1[i] == ds[i]);
            }
        }
        lemma_digits_value_bound(d1, r);
        assert(ds.last() < r) by {
            assert(ds[ds.len() - 1] < r);
        }
        let v = digits_value(d1, r);
        let w = pow(r as int, d1.len());
        let l = ds.last() as int;
        assert(v * r + l < r * w) by (nonlinear_arith)
            requires
                v < w,
                l < r,
        ;
    }
}

/// Under nearest-even rounding the exponent cap changes nothing: every digit
/// stream parses to the correctly rounded float of its exact value.
pub proof fn lemma_parse_correctly_rounded(
    kind: FloatKind,
    ds: Seq<u8>,
    exponent: int,
    radix: nat,
    negative: bool,
)
    requires
        2 <= radix <= 36,
        valid_digits(ds, radix),
    ensures
        magnitude_bits(kind, ds, exponent, radix, RoundingKind::NearestTiesEven, negative)
            == exact_magnitude(kind, ds, exponent, radix, RoundingKind::NearestTiesEven, negative),
{
    let n = digits_value(ds, radix);
    let mode = RoundingKind::NearestTiesEven;
    let r = radix as int;
    lemma2_to64();
    lemma2_to64_rest();
    lemma_pow2(mant_bits(kind));
    lemma_pow2(mant_bits(kind) + 1);
    lemma_pow0(2);
    let u = pow(2, mant_bits(kind));
    let emin = min_exp(kind);
    if n > 0 && exponent > EXPONENT_CAP {
        let e = exponent as nat;
        lemma_pow_positive(r, e);
        let w = pow(r, e);
        let big_p = (n * w) as nat;
        assert(big_p >= w) by (nonlinear_arith)
            requires
                big_p == n * w,
                n >= 1,
                w > 0,
        ;
        lemma_pow_base_mono(radix, e);
        lemma_pow_increases(2, 1201, e);
        lemma_ulp_exp_exists(kind, big_p, 1);
        let k = ulp_exp(kind, big_p, 1);
        lemma_pow_strictly_increases(2, 53, 1201);
        lemma_pow_increases(2, mant_bits(kind) + 1, 53);
        lemma_pow_adds(2, mant_bits(kind) + 1, crate::float::pos_part(k));
        lemma_pow_positive(2, crate::float::neg_part(k));
        let a = scaled_num(big_p, k);
        assert(a >= big_p) by (nonlinear_arith)
            requires
                a == big_p * pow(2, crate::float::neg_part(k)),
                pow(2, crate::float::neg_part(k)) >= 1,
        ;
        if k < 1148 {
            assert(crate::float::fits_at(kind, big_p, 1, k));
            let c = pow(2, mant_bits(kind) + 1);
            if k >= 0 {
                lemma_pow_increases(2, mant_bits(kind) + 1 + k as nat, 1201);
                crate::float::lemma_scaled_num_unshifted(big_p, k);
                lemma_pow_positive(2, k as nat);
                let w2 = pow(2, k as nat);
                assert(scaled_den(1, k) == w2);
                assert(c * w2 == pow(2, mant_bits(kind) + 1 + k as nat));
                assert(big_p < c * w2);
            } else {
                crate::float::lemma_scaled_den_unshifted(1, k);
                assert(a < c * 1);
            }
            assert(false);
        }
        lemma_pow_positive(2, mant_bits(kind));
        let m = rounded_at(big_p, 1, k, mode, negative);
        let lim: int = match kind {
            FloatKind::Binary32 => 255,
            FloatKind::Binary64 => 2047,
        };
        assert(lim * u == inf_bits(kind));
        assert(k - emin >= lim + 1);
        assert((k - emin) * u >= lim * u + u) by (nonlinear_arith)
            requires
                k - emin >= lim + 1,
                u > 0,
        ;
    } else if n > 0 && exponent < 0 && exponent + ds.len() < -EXPONENT_CAP {
        let e = (-exponent) as nat;
        let len = ds.len();
        let gap = (e - len) as nat;
        lemma_digits_value_bound(ds, radix);
        lemma_pow_adds(r, len, gap);
        lemma_pow_base_mono(radix, gap);
        lemma_pow_increases(2, 1201, gap);
        lemma_pow_adds(2, 1076, 125);
        lemma_pow_adds(2, 1074, 2);
        lemma_pow2(2);
        lemma_pow_increases(2, crate::float::neg_part(emin), 1074);
        lemma_pow_positive(2, 1074);
        lemma_pow_positive(2, 125);
        lemma_pow_positive(r, len);
        let q = pow(r, e) as nat;
        let rl = pow(r, len);
        let g = pow(r, gap);
        let t = pow(2, crate::float::neg_part(emin));
        lemma_pow_positive(2, crate::float::neg_part(emin));
        let a = scaled_num(n, emin);
        crate::float::lemma_scaled_den_unshifted(q, emin);
        lemma_pow_positive(r, e);
        lemma_pow_increases(2, 1076, 1201);
        assert(e == len + gap);
        let b = scaled_den(q, emin);
        assert(a == n * t);
        assert(4 * a < b) by (nonlinear_arith)
            requires
                a == n * t,
                n < rl,
                t <= pow(2, 1074),
                b == rl * g,
                g >= pow(2, 1201),
                pow(2, 1201) >= pow(2, 1076) * 1,
                pow(2, 1076) == pow(2, 1074) * 4,
                pow(2, 1074) > 0,
                rl > 0,
        ;
        lemma_pow_positive(2, mant_bits(kind) + 1);
        assert(a < pow(2, mant_bits(kind) + 1) * b) by (nonlinear_arith)
            requires
                4 * a < b,
                pow(2, mant_bits(kind) + 1) >= 1,
        ;
        assert(is_ulp_exp(kind, n, q, emin));
        lemma_ulp_exp_unique(kind, n, q, emin);
        vstd::arithmetic::div_mod::lemma_fundamental_div_mod_converse(a as int, b as int, 0, a as int);
        assert(rounded_at(n, q, emin, mode, negative) == 0);
        assert((emin - emin) * u == 0);
    }
}

/// A parsed finite float is the nearest finite float to the exact value of
/// the digits: no finite float `c` lies nearer to `digits * radix^exponent`.
/// Values are compared in units of the smallest subnormal, scaled by the
/// exact value's denominator.
pub proof fn lemma_parse_nearest(kind: FloatKind, ds: Seq<u8>, exponent: int, radix: nat, c: nat)
    requires
        2 <= radix <= 36,
        valid_digits(ds, radix),
        digits_value(ds, radix) > 0,
        magnitude_bits(kind, ds, exponent, radix, RoundingKind::NearestTiesEven, false) < inf_bits(kind),
        c < inf_bits(kind),
    ensures
        ({
            let b = magnitude_bits(kind, ds, exponent, radix, RoundingKind::NearestTiesEven, false);
            let p = exact_num(ds, exponent, radix);
            let q = exact_den(exponent, radix);
            let t = scaled_num(p, min_exp(kind)) as int;
            distance((units(kind, b) * q) as int, t) <= distance((units(kind, c) * q) as int, t)
        }),
{
    lemma_parse_correctly_rounded(kind, ds, exponent, radix, false);
    let p = exact_num(ds, exponent, radix);
    let q = exact_den(exponent, radix);
    let n = digits_value(ds, radix);
    if exponent >= 0 {
        lemma_pow_positive(radix as int, exponent as nat);
        let w = pow(radix as int, exponent as nat);
        assert(n * w > 0) by (nonlinear_arith)
            requires
                n > 0,
                w > 0,
        ;
    } else {
        lemma_pow_positive(radix as int, (-exponent) as nat);
    }
    lemma_nearest_float(kind, p, q, c);
}

} // verus!
