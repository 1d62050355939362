//! Shortest round-trip digits of a float in any radix.
use crate::bignat::{lemma_limbs_value_bound, limb_base, BigNat};
use crate::digits::{lemma_canonical_digits, lemma_radix_digits, plus_one, radix_digits};
use vstd::arithmetic::div_mod::lemma_fundamental_div_mod;
use crate::float::{
    fits_at, inf_bits, lemma_nearest_within_half_ulp, lemma_pow_base_mono, lemma_rounds_to,
    lemma_scaled_double, lemma_ulp_exp_exists, rounded_at, mant_bits, min_exp, neg_part, pos_part, ratio_bits, scaled_den,
    scaled_num, ulp_exp, FloatKind, RoundingKind,
};
use crate::parse::{digits_value, parsed_bits, to_native, valid_digits};
use vstd::arithmetic::power::*;
use vstd::arithmetic::power2::*;
use vstd::prelude::*;

verus! {

/// Significand of finite float bits, the implicit bit included.
pub open spec fn significand(kind: FloatKind, bits: nat) -> nat {
    let unit = pow(2, mant_bits(kind)) as nat;
    if bits / unit == 0 {
        bits % unit
    } else {
        bits % unit + unit
    }
}

/// Binary exponent of the last significand bit of finite float bits.
pub open spec fn exponent2(kind: FloatKind, bits: nat) -> int {
    let unit = pow(2, mant_bits(kind)) as nat;
    if bits / unit == 0 {
        min_exp(kind)
    } else {
        min_exp(kind) + bits / unit - 1
    }
}

/// The value of finite float bits is `float_num / float_den`.
pub open spec fn float_num(kind: FloatKind, bits: nat) -> nat {
    significand(kind, bits) * pow(2, pos_part(exponent2(kind, bits))) as nat
}

pub open spec fn float_den(kind: FloatKind, bits: nat) -> nat {
    pow(2, neg_part(exponent2(kind, bits))) as nat
}

/// `p / q >= r^t`.
pub open spec fn at_least_pow(p: nat, q: nat, r: nat, t: int) -> bool {
    p * pow(r as int, neg_part(t)) >= q * pow(r as int, pos_part(t))
}

/// `r^s <= p / q < r^(s + 1)`: the leading digit of `p / q` has weight `r^s`.
pub open spec fn is_lead_exp(p: nat, q: nat, r: nat, s: int) -> bool {
    at_least_pow(p, q, r, s) && !at_least_pow(p, q, r, s + 1)
}

pub open spec fn lead_exp(p: nat, q: nat, r: nat) -> int {
    choose|s: int| is_lead_exp(p, q, r, s)
}

/// `(p / q) / r^(s - len + 1)` times the denominator of the division below.
pub open spec fn scaled_at(p: nat, q: nat, r: nat, s: int, len: nat) -> nat {
    p * pow(r as int, neg_part(s)) as nat * pow(r as int, (len - 1) as nat) as nat
}

pub open spec fn lead_den(q: nat, r: nat, s: int) -> nat {
    q * pow(r as int, pos_part(s)) as nat
}

/// The first `len` digits of `p / q`, read as an integer.
pub open spec fn truncated(p: nat, q: nat, r: nat, s: int, len: nat) -> nat {
    scaled_at(p, q, r, s, len) / lead_den(q, r, s)
}

/// Whether digits follow the first `len`.
pub open spec fn inexact(p: nat, q: nat, r: nat, s: int, len: nat) -> bool {
    scaled_at(p, q, r, s, len) % lead_den(q, r, s) != 0
}

/// Neither neighbour of `p / q` with `len` digits reads back as `bits`.
pub open spec fn no_round_trip_at(kind: FloatKind, bits: nat, r: nat, s: int, len: nat) -> bool {
    let p = float_num(kind, bits);
    let q = float_den(kind, bits);
    let d = truncated(p, q, r, s, len);
    let e = s - len + 1;
    &&& parsed_bits(kind, radix_digits(d, r), e, r, RoundingKind::NearestTiesEven, false) != bits
    &&& (inexact(p, q, r, s, len) ==> parsed_bits(
        kind,
        radix_digits(d + 1, r),
        e,
        r,
        RoundingKind::NearestTiesEven,
        false,
    ) != bits)
}

/// Sixteen times the base-two logarithm of the radix, rounded down.
fn log2_x16(radix: u32) -> (r: i64)
    requires
        2 <= radix <= 36,
    ensures
        16 <= r <= 83,
{
    match radix {
        2 => 16,
        3 => 25,
        4 => 32,
        5 => 37,
        6 => 41,
        7 => 44,
        8 => 48,
        9 => 50,
        10 => 53,
        11 => 55,
        12 => 57,
        13 => 59,
        14 => 60,
        15 => 62,
        16 => 64,
        17 => 65,
        18 => 66,
        19 => 67,
        20 => 69,
        21 => 70,
        22 => 71,
        23 => 72,
        24 => 73,
        25 => 74,
        26 => 75,
        27 => 76,
        28 => 76,
        29 => 77,
        30 => 78,
        31 => 79,
        32 => 80,
        33 => 80,
        34 => 81,
        35 => 82,
        _ => 82,
    }
}

/// Significand and binary exponent of positive finite float bits.
pub fn decode(kind: FloatKind, bits: u64) -> (r: (u64, i64))
    requires
        0 < bits < inf_bits(kind),
    ensures
        r.0 == significand(kind, bits as nat),
        r.1 == exponent2(kind, bits as nat),
        0 < r.0 < 0x20_0000_0000_0000,
        min_exp(kind) <= r.1 <= 2000,
{
    let unit = kind.mantissa_unit();
    let lim = kind.exponent_limit();
    let e = bits / unit;
    let f = bits % unit;
    proof {
        assert(e < lim) by (nonlinear_arith)
            requires
                e == bits / unit,
                bits < lim * unit,
                unit > 0,
        ;
        if e == 0 {
            vstd::arithmetic::div_mod::lemma_fundamental_div_mod(bits as int, unit as int);
            assert(f == bits);
        }
    }
    if e == 0 {
        (f, kind.min_exponent())
    } else {
        (f + unit, kind.min_exponent() + (e as i64) - 1)
    }
}

/// The value of positive finite float bits as a ratio of big naturals.
pub fn float_ratio(kind: FloatKind, bits: u64) -> (r: (BigNat, BigNat))
    requires
        0 < bits < inf_bits(kind),
    ensures
        r.0@ == float_num(kind, bits as nat),
        r.1@ == float_den(kind, bits as nat),
        r.0@ > 0,
        r.1@ > 0,
        r.0.limbs@.len() <= 2100,
        r.1.limbs@.len() <= 2100,
{
    let (sig, k) = decode(kind, bits);
    let mut p = BigNat::from_u64(sig);
    if k > 0 {
        p.shl(k as u64);
    }
    let mut q = BigNat::from_u32(1);
    if k < 0 {
        q.shl((0 - k) as u64);
    }
    proof {
        lemma_pow0(2);
        lemma_pow_positive(2, pos_part(k as int));
        lemma_pow_positive(2, neg_part(k as int));
        let w = pow(2, pos_part(k as int));
        if k > 0 {
            assert(pos_part(k as int) == k as u64 as nat);
        } else {
            assert(pos_part(k as int) == 0);
            assert(w == 1);
            assert(sig * w == sig) by (nonlinear_arith)
                requires
                    w == 1,
            ;
        }
        if k < 0 {
            assert(neg_part(k as int) == (0 - k) as u64 as nat);
        }
        assert(sig * w > 0) by (nonlinear_arith)
            requires
                sig > 0,
                w > 0,
        ;
    }
    (p, q)
}

/// Whether `p / q >= r^t`.
fn at_least(p: &BigNat, q: &BigNat, r: u32, t: i64) -> (b: bool)
    requires
        -0x100_0000_0000 <= t <= 0x100_0000_0000,
    ensures
        b == at_least_pow(p@, q@, r as nat, t as int),
{
    let mut a = p.copy();
    if t < 0 {
        a.mul_pow(r, (0 - t) as u64);
    }
    let mut b = q.copy();
    if t > 0 {
        b.mul_pow(r, t as u64);
    }
    proof {
        lemma_pow0(r as int);
        lemma_pow_positive(2, 0);
        if t >= 0 {
            assert(neg_part(t as int) == 0);
            assert(p@ * pow(r as int, 0) == p@) by (nonlinear_arith)
                requires
                    pow(r as int, 0) == 1,
            ;
        } else {
            assert(neg_part(t as int) == (0 - t) as u64 as nat);
        }
        if t <= 0 {
            assert(pos_part(t as int) == 0);
            assert(q@ * pow(r as int, 0) == q@) by (nonlinear_arith)
                requires
                    pow(r as int, 0) == 1,
            ;
        } else {
            assert(pos_part(t as int) == t as u64 as nat);
        }
    }
    BigNat::compare(&a, &b) >= 0
}

/// `p < r^(32 * l)` when `p` has `l` limbs.
proof fn lemma_below_pow(p: nat, l: nat, r: nat)
    requires
        p < pow(limb_base(), l),
        r >= 2,
    ensures
        p < pow(r as int, 32 * l),
{
    lemma2_to64();
    lemma2_to64_rest();
    lemma_pow2(32);
    lemma_pow_multiplies(2, 32, l);
    assert(pow(2, 32) == limb_base());
    lemma_pow_base_mono(r, 32 * l);
}

proof fn lemma_at_least_step(p: nat, q: nat, r: nat, t: int)
    requires
        r >= 2,
        at_least_pow(p, q, r, t + 1),
    ensures
        at_least_pow(p, q, r, t),
{
    if t >= 0 {
        lemma_pow_adds(r as int, t as nat, 1);
        lemma_pow1(r as int);
        lemma_pow_positive(r as int, t as nat);
        lemma_pow0(r as int);
        let w = pow(r as int, t as nat);
        assert(q * w <= q * (w * r)) by (nonlinear_arith)
            requires
                w > 0,
                r >= 2,
        ;
    } else {
        let n = neg_part(t + 1);
        lemma_pow_adds(r as int, n, 1);
        lemma_pow1(r as int);
        lemma_pow_positive(r as int, n);
        lemma_pow0(r as int);
        let w = pow(r as int, n);
        assert(p * w <= p * (w * r)) by (nonlinear_arith)
            requires
                w > 0,
                r >= 2,
        ;
    }
}

proof fn lemma_at_least_mono(p: nat, q: nat, r: nat, t1: int, t2: int)
    requires
        r >= 2,
        t1 <= t2,
        at_least_pow(p, q, r, t2),
    ensures
        at_least_pow(p, q, r, t1),
    decreases t2 - t1,
{
    if t1 < t2 {
        lemma_at_least_step(p, q, r, t2 - 1);
        lemma_at_least_mono(p, q, r, t1, t2 - 1);
    }
}

/// The leading-digit exponent is unique.
pub proof fn lemma_lead_exp_unique(p: nat, q: nat, r: nat, s: int)
    requires
        r >= 2,
        is_lead_exp(p, q, r, s),
    ensures
        lead_exp(p, q, r) == s,
{
    let j = lead_exp(p, q, r);
    assert(is_lead_exp(p, q, r, j));
    if j < s {
        lemma_at_least_mono(p, q, r, j + 1, s);
    } else if s < j {
        lemma_at_least_mono(p, q, r, s + 1, j);
    }
}

/// The exponent of the leading digit of `p / q` in radix `r`.
fn lead_exponent(p: &BigNat, q: &BigNat, r: u32, estimate: i64) -> (s: i64)
    requires
        2 <= r <= 36,
        p@ > 0,
        q@ > 0,
        p.limbs@.len() <= 2100,
        q.limbs@.len() <= 2100,
    ensures
        is_lead_exp(p@, q@, r as nat, s as int),
        -70000 <= s <= 70000,
{
    let hi: i64 = 32 * (p.limbs.len() as i64);
    let lo: i64 = -32 * (q.limbs.len() as i64);
    proof {
        lemma_limbs_value_bound(p.limbs@);
        lemma_limbs_value_bound(q.limbs@);
        lemma_below_pow(p@, p.limbs@.len() as nat, r as nat);
        lemma_below_pow(q@, q.limbs@.len() as nat, r as nat);
        lemma_pow0(r as int);
        let a = pow(r as int, hi as nat);
        let b = pow(r as int, (-lo) as nat);
        assert(p@ * 1 < q@ * a) by (nonlinear_arith)
            requires
                p@ < a,
                q@ >= 1,
        ;
        assert(p@ * b >= q@ * 1) by (nonlinear_arith)
            requires
                q@ < b,
                p@ >= 1,
        ;
    }
    let mut s = estimate;
    if s < lo {
        s = lo;
    }
    if s >= hi {
        s = hi - 1;
    }
    while !at_least(p, q, r, s)
        invariant
            lo <= s < hi,
            -70000 <= lo <= 0 < hi <= 70000,
            at_least_pow(p@, q@, r as nat, lo as int),
            !at_least_pow(p@, q@, r as nat, hi as int),
        decreases s - lo,
    {
        s = s - 1;
    }
    while at_least(p, q, r, s + 1)
        invariant
            lo <= s < hi,
            -70000 <= lo <= 0 < hi <= 70000,
            at_least_pow(p@, q@, r as nat, s as int),
            !at_least_pow(p@, q@, r as nat, hi as int),
        decreases hi - s,
    {
        s = s + 1;
    }
    s
}

/// `num / den` and its remainder, for a quotient below `bound`.
fn div_small(num: BigNat, den: &BigNat, bound: u32) -> (r: (u8, BigNat))
    requires
        den@ > 0,
        num@ < bound * den@,
        bound <= 36,
    ensures
        r.0 * den@ + r.1@ == num@,
        r.1@ < den@,
        r.0 < bound,
{
    let mut d: u8 = 0;
    let mut rem = num;
    while BigNat::compare(&rem, den) >= 0
        invariant
            d * den@ + rem@ == num@,
            rem@ < (bound - d) * den@,
            d < bound <= 36,
            den@ > 0,
        decreases bound - d,
    {
        proof {
            assert(bound - d > 1) by (nonlinear_arith)
                requires
                    rem@ < (bound - d) * den@,
                    rem@ >= den@,
                    den@ > 0,
            ;
            assert((d + 1) * den@ == d * den@ + den@) by (nonlinear_arith);
            assert((bound - d - 1) * den@ == (bound - d) * den@ - den@) by (nonlinear_arith);
        }
        rem = BigNat::sub(&rem, den);
        d = d + 1;
    }
    (d, rem)
}

/// Below the next power: the leading digit is less than the radix.
proof fn lemma_lead_bound(p: nat, q: nat, r: nat, s: int)
    requires
        r >= 2,
        is_lead_exp(p, q, r, s),
    ensures
        scaled_at(p, q, r, s, 1) == p * pow(r as int, neg_part(s)),
        scaled_at(p, q, r, s, 1) < r * lead_den(q, r, s),
        scaled_at(p, q, r, s, 1) >= lead_den(q, r, s),
{
    lemma_pow0(r as int);
    lemma_pow1(r as int);
    lemma_pow_positive(r as int, neg_part(s));
    lemma_pow_positive(r as int, pos_part(s));
    let a = pow(r as int, neg_part(s));
    assert(scaled_at(p, q, r, s, 1) == p * a) by {
        assert(p * a * 1 == p * a);
    }
    if s >= 0 {
        lemma_pow_adds(r as int, s as nat, 1);
        let w = pow(r as int, s as nat);
        assert(q * (w * r) == r * (q * w)) by (nonlinear_arith);
    } else {
        let n = neg_part(s + 1);
        lemma_pow_adds(r as int, n, 1);
        let w = pow(r as int, n);
        assert(p * w < q);
        assert(p * (w * r) < r * q) by (nonlinear_arith)
            requires
                p * w < q,
                r >= 2,
        ;
    }
}

/// One more digit multiplies the scaled value by the radix.
proof fn lemma_scaled_next(p: nat, q: nat, r: nat, s: int, len: nat)
    requires
        len >= 1,
        r >= 2,
    ensures
        scaled_at(p, q, r, s, len + 1) == scaled_at(p, q, r, s, len) * r,
{
    lemma_pow_adds(r as int, (len - 1) as nat, 1);
    lemma_pow1(r as int);
    assert((len + 1 - 1) as nat == (len - 1) as nat + 1);
    let a = pow(r as int, neg_part(s)) as nat;
    let w = pow(r as int, (len - 1) as nat);
    assert(p * a * (w * r) == p * a * w * r) by (nonlinear_arith);
    lemma_pow_positive(r as int, (len - 1) as nat);
}

/// `ds` times `r^e` is the output of the shortest search for `bits`, and
/// reads back as `bits`: either the single digit one at the weight above the
/// leading digit, or the `n`-digit truncation of the value or its successor,
/// where no shorter truncation nor its successor reads back as `bits`; when
/// the successor carried into an extra digit, the single digit one did not
/// read back as `bits`.
pub open spec fn is_shortest(kind: FloatKind, bits: nat, r: nat, ds: Seq<u8>, e: int) -> bool {
    let p = float_num(kind, bits);
    let q = float_den(kind, bits);
    let s = lead_exp(p, q, r);
    let n = s - e + 1;
    let d = truncated(p, q, r, s, n as nat);
    ||| (ds == seq![1u8] && e == s + 1 && parsed_bits(
        kind,
        ds,
        e,
        r,
        RoundingKind::NearestTiesEven,
        false,
    ) == bits)
    ||| {
        &&& 1 <= n <= mant_bits(kind) + 4
        &&& (ds == radix_digits(d, r) || (inexact(p, q, r, s, n as nat) && ds == radix_digits(
            d + 1,
            r,
        )))
        &&& forall|l: nat| 1 <= l < n ==> no_round_trip_at(kind, bits, r, s, l)
        &&& parsed_bits(kind, ds, e, r, RoundingKind::NearestTiesEven, false) == bits
        &&& (ds.len() > n ==> parsed_bits(
            kind,
            seq![1u8],
            s + 1,
            r,
            RoundingKind::NearestTiesEven,
            false,
        ) != bits)
    }
}

/// The shortest digits of a positive finite float in `radix` that read back
/// as the same float, with the exponent of the last digit: the value they
/// stand for is `digits * radix^exponent`.
///
/// For each digit count from one upward, the two neighbours of the value with
/// that many digits (truncated, and truncated plus one unit in the last digit)
/// are read back with the correctly rounding parser; the first count at which
/// one of them gives the float back is taken, the nearer neighbour if both do.
pub fn format_shortest(kind: FloatKind, bits: u64, radix: u32) -> (r: (Vec<u8>, i64))
    requires
        0 < bits < inf_bits(kind),
        2 <= radix <= 36,
    ensures
        is_shortest(kind, bits as nat, radix as nat, r.0@, r.1 as int),
        valid_digits(r.0@, radix as nat),
        1 <= r.0@.len() <= 57,
        -80000 <= r.1 <= 80000,
{
    let (p, q) = float_ratio(kind, bits);
    let (_, k) = decode(kind, bits);
    let estimate = ((k + 53) * 16) / log2_x16(radix);
    let s = lead_exponent(&p, &q, radix, estimate);
    let ghost rr = radix as nat;
    proof {
        lemma_lead_exp_unique(p@, q@, rr, s as int);
        lemma_lead_bound(p@, q@, rr, s as int);
        lemma_pow0(radix as int);
    }
    let mut num = p.copy();
    if s < 0 {
        num.mul_pow(radix, (0 - s) as u64);
    }
    let mut den = q.copy();
    if s > 0 {
        den.mul_pow(radix, s as u64);
    }
    proof {
        lemma_pow_positive(radix as int, pos_part(s as int));
        let w = pow(radix as int, pos_part(s as int));
        assert(q@ * w > 0) by (nonlinear_arith)
            requires
                q@ > 0,
                w > 0,
        ;
        if s >= 0 {
            assert(neg_part(s as int) == 0);
        } else {
            assert(pos_part(s as int) == 0);
        }
        if s >= 0 {
            assert(p@ * pow(radix as int, 0) == p@) by (nonlinear_arith)
                requires
                    pow(radix as int, 0) == 1,
            ;
        } else {
            assert(neg_part(s as int) == (0 - s) as u64 as nat);
        }
        if s <= 0 {
            assert(q@ * pow(radix as int, 0) == q@) by (nonlinear_arith)
                requires
                    pow(radix as int, 0) == 1,
            ;
        } else {
            assert(pos_part(s as int) == s as u64 as nat);
        }
        assert(num@ == scaled_at(p@, q@, rr, s as int, 1));
        assert(den@ == lead_den(q@, rr, s as int));
    }
    let (d1, rem0) = div_small(num, &den, radix);
    proof {
        assert(d1 >= 1) by (nonlinear_arith)
            requires
                d1 * den@ + rem0@ >= den@,
                rem0@ < den@,
                d1 >= 0,
        ;
    }
    let mut digits: Vec<u8> = Vec::new();
    digits.push(d1);
    let mut rem = rem0;
    let mut len: usize = 1;
    proof {
        assert(digits@.drop_last() =~= Seq::<u8>::empty());
        assert(digits_value(Seq::<u8>::empty(), rr) == 0);
        assert(digits@.last() == d1);
        assert(0 * rr == 0);
        assert(digits_value(digits@, rr) == d1);
    }
    loop
        invariant
            2 <= radix <= 36,
            rr == radix,
            0 < bits < inf_bits(kind),
            p@ == float_num(kind, bits as nat),
            q@ == float_den(kind, bits as nat),
            lead_exp(p@, q@, rr) == s,
            -70000 <= s <= 70000,
            1 <= len <= mant_bits(kind) + 4,
            is_lead_exp(p@, q@, rr, s as int),
            digits@.len() == len,
            valid_digits(digits@, rr),
            digits@[0] != 0,
            den@ == lead_den(q@, rr, s as int),
            den@ > 0,
            rem@ < den@,
            scaled_at(p@, q@, rr, s as int, len as nat) == digits_value(digits@, rr) * den@ + rem@,
            forall|l: nat| 1 <= l < len ==> no_round_trip_at(kind, bits as nat, rr, s as int, l),
        decreases mant_bits(kind) + 4 - len,
    {
        let e: i64 = s - (len as i64) + 1;
        let ghost dv = digits_value(digits@, rr);
        proof {
            vstd::arithmetic::div_mod::lemma_fundamental_div_mod_converse(
                scaled_at(p@, q@, rr, s as int, len as nat) as int,
                den@ as int,
                dv as int,
                rem@ as int,
            );
            assert(truncated(p@, q@, rr, s as int, len as nat) == dv);
            assert(inexact(p@, q@, rr, s as int, len as nat) == (rem@ != 0));
            lemma_canonical_digits(digits@, rr);
        }
        let fl = to_native(kind, &digits, e, radix, false, RoundingKind::NearestTiesEven);
        let exact = rem.is_zero();
        if fl == bits && exact {
            return (digits, e);
        }
        if !exact {
            let up = plus_one(&digits, radix);
            proof {
                lemma_canonical_digits(up@, rr);
            }
            let cl = to_native(kind, &up, e, radix, false, RoundingKind::NearestTiesEven);
            if cl == bits {
                if fl == bits {
                    let mut twice = rem.copy();
                    twice.mul_small_add(2, 0);
                    if BigNat::compare(&twice, &den) <= 0 {
                        return (digits, e);
                    }
                }
                if up.len() > len {
                    // The successor carried into a new digit: it is one unit
                    // at the weight above the leading digit.
                    let mut one: Vec<u8> = Vec::new();
                    one.push(1);
                    proof {
                        assert(one@ =~= seq![1u8]);
                        assert(valid_digits(one@, rr));
                    }
                    if to_native(kind, &one, s + 1, radix, false, RoundingKind::NearestTiesEven) == bits {
                        return (one, s + 1);
                    }
                }
                proof {
                    assert(up@.len() > len ==> parsed_bits(
                        kind,
                        seq![1u8],
                        s + 1,
                        rr,
                        RoundingKind::NearestTiesEven,
                        false,
                    ) != bits);
                }
                return (up, e);
            }
        }
        if fl == bits {
            return (digits, e);
        }
        proof {
            assert(no_round_trip_at(kind, bits as nat, rr, s as int, len as nat));
            lemma_some_candidate_parses(kind, bits as nat, rr, s as int);
        }
        let ghost old_digits = digits@;
        let ghost r0 = rem@;
        let mut t = rem;
        t.mul_small_add(radix, 0);
        proof {
            assert(t@ < radix * den@) by (nonlinear_arith)
                requires
                    t@ == r0 * radix,
                    r0 < den@,
                    radix >= 2,
            ;
        }
        let (d, rem2) = div_small(t, &den, radix);
        digits.push(d);
        rem = rem2;
        proof {
            lemma_scaled_next(p@, q@, rr, s as int, len as nat);
            assert(digits@.drop_last() =~= old_digits);
            assert(digits@[0] == old_digits[0]);
            assert(valid_digits(digits@, rr)) by {
                assert forall|i: int| 0 <= i < digits@.len() implies digits@[i] < rr by {
                    if i < len {
                        assert(digits@[i] == old_digits[i]);
                    }
                }
            }
            assert((dv * den@ + r0) * rr == (dv * rr + d) * den@ + rem2@) by (nonlinear_arith)
                requires
                    d * den@ + rem2@ == r0 * rr,
            ;
            assert forall|l: nat| 1 <= l < len + 1 implies no_round_trip_at(
                kind,
                bits as nat,
                rr,
                s as int,
                l,
            ) by {
                if l < len {
                }
            }
        }
        len = len + 1;
    }
}

/// Decoded parts of positive finite float bits re-encode to the bits.
proof fn lemma_float_parts(kind: FloatKind, bits: nat)
    requires
        0 < bits < inf_bits(kind),
    ensures
        ({
            let sig = significand(kind, bits);
            let k = exponent2(kind, bits);
            let u = pow(2, mant_bits(kind));
            &&& 0 < sig < 2 * u
            &&& min_exp(kind) <= k
            &&& k + mant_bits(kind) + 1 <= 1024
            &&& k == min_exp(kind) || sig >= u
            &&& (k - min_exp(kind)) * u + sig == bits
            &&& -1074 <= min_exp(kind)
        }),
{
    lemma2_to64();
    lemma2_to64_rest();
    lemma_pow2(mant_bits(kind));
    let u = pow(2, mant_bits(kind));
    vstd::arithmetic::div_mod::lemma_fundamental_div_mod(bits as int, u as int);
    let e = bits / (u as nat);
    let f = bits % (u as nat);
    let lim: int = match kind {
        FloatKind::Binary32 => 255,
        FloatKind::Binary64 => 2047,
    };
    assert(lim * u == inf_bits(kind));
    assert(e < lim) by (nonlinear_arith)
        requires
            bits == u * e + f,
            f >= 0,
            bits < lim * u,
            u > 0,
    ;
    if e == 0 {
        assert(f == bits);
    } else {
        assert((e - 1) * u + (f + u) == u * e + f) by (nonlinear_arith);
    }
}

/// The leading digit of a finite float's value sits between the extremes of the format.
proof fn lemma_lead_range(kind: FloatKind, bits: nat, r: nat, s: int)
    requires
        0 < bits < inf_bits(kind),
        2 <= r <= 36,
        is_lead_exp(float_num(kind, bits), float_den(kind, bits), r, s),
    ensures
        -1075 < s <= 1024,
{
    lemma_float_parts(kind, bits);
    let p = float_num(kind, bits);
    let q = float_den(kind, bits);
    let sig = significand(kind, bits);
    let k = exponent2(kind, bits);
    let u = pow(2, mant_bits(kind));
    lemma_pow_adds(2, mant_bits(kind), 1);
    lemma_pow1(2);
    lemma_pow0(2);
    lemma_pow0(r as int);
    lemma_pow_positive(2, pos_part(k));
    lemma_pow_positive(2, neg_part(k));
    if s > 1024 {
        // p >= q * r^s >= 2^s > 2^1024 > p
        lemma_pow_base_mono(r, s as nat);
        lemma_pow_increases(2, 1025, s as nat);
        lemma_pow_increases(2, mant_bits(kind) + 1 + pos_part(k), 1024);
        lemma_pow_adds(2, mant_bits(kind) + 1, pos_part(k));
        let w = pow(2, pos_part(k));
        let rs = pow(r as int, s as nat);
        assert(p == sig * w);
        assert(q >= 1);
        assert(p * 1 >= q * rs);
        lemma_pow_strictly_increases(2, 1024, 1025);
        assert(sig * w < 2 * u * w) by (nonlinear_arith)
            requires
                sig < 2 * u,
                w > 0,
        ;
        assert(q * rs >= rs) by (nonlinear_arith)
            requires
                q >= 1,
                rs >= 0,
        ;
    }
    if s < -1074 {
        // p * r^(-(s + 1)) < q <= 2^1074
        let n = (-(s + 1)) as nat;
        lemma_pow_base_mono(r, n);
        lemma_pow_increases(2, 1074, n);
        lemma_pow_increases(2, neg_part(k), 1074);
        let rn = pow(r as int, n);
        assert(p * rn < q * 1);
        assert(p >= 1) by (nonlinear_arith)
            requires
                p == sig * pow(2, pos_part(k)),
                sig > 0,
                pow(2, pos_part(k)) > 0,
        ;
        assert(p * rn >= rn) by (nonlinear_arith)
            requires
                p >= 1,
                rn >= 0,
        ;
    }
}

/// Numerator of `n * r^t` as the parser forms it.
pub open spec fn cand_num(n: nat, r: nat, t: int) -> nat {
    if t >= 0 {
        n * pow(r as int, t as nat) as nat
    } else {
        n
    }
}

/// Denominator of `n * r^t` as the parser forms it.
pub open spec fn cand_den(r: nat, t: int) -> nat {
    if t >= 0 {
        1
    } else {
        pow(r as int, (-t) as nat) as nat
    }
}

proof fn lemma_candidate_powers(n: nat, r: nat, s: int, len: nat)
    requires
        len >= 1,
        r >= 2,
    ensures
        cand_num(n, r, s - len + 1) * pow(r as int, neg_part(s)) * pow(r as int, (len - 1) as nat)
            == n * pow(r as int, pos_part(s)) * cand_den(r, s - len + 1),
{
    let t = s - len + 1;
    let l1 = (len - 1) as nat;
    lemma_pow0(r as int);
    if t >= 0 {
        lemma_pow_adds(r as int, t as nat, l1);
        lemma_pow_positive(r as int, t as nat);
        let a = pow(r as int, t as nat);
        let b = pow(r as int, l1);
        assert(n * a * 1 * b == n * (a * b) * 1) by (nonlinear_arith);
    } else if s >= 0 {
        lemma_pow_adds(r as int, s as nat, (-t) as nat);
        lemma_pow_positive(r as int, (-t) as nat);
        let a = pow(r as int, s as nat);
        let b = pow(r as int, (-t) as nat);
        assert(n * 1 * (a * b) == n * a * b) by (nonlinear_arith);
    } else {
        lemma_pow_adds(r as int, (-s) as nat, l1);
        let a = pow(r as int, (-s) as nat);
        let b = pow(r as int, l1);
        lemma_pow_positive(r as int, (-t) as nat);
        assert(n * a * b == n * 1 * (a * b)) by (nonlinear_arith);
    }
}

/// `n * r^t` at binary scale `k`, against the value at the leading scale:
/// the candidate over the float is `n` over the scaled value.
proof fn lemma_candidate_identity(kind: FloatKind, bits: nat, r: nat, s: int, len: nat, n: nat)
    requires
        len >= 1,
        r >= 2,
    ensures
        ({
            let p = float_num(kind, bits);
            let q = float_den(kind, bits);
            let k = exponent2(kind, bits);
            let t = s - len + 1;
            scaled_num(cand_num(n, r, t), k) * scaled_at(p, q, r, s, len) == significand(kind, bits)
                * n * lead_den(q, r, s) * scaled_den(cand_den(r, t), k)
        }),
{
    let k = exponent2(kind, bits);
    let t = s - len + 1;
    let sig = significand(kind, bits);
    lemma_candidate_powers(n, r, s, len);
    lemma_pow_positive(2, neg_part(k));
    lemma_pow_positive(2, pos_part(k));
    lemma_pow_positive(r as int, neg_part(s));
    lemma_pow_positive(r as int, pos_part(s));
    lemma_pow_positive(r as int, (len - 1) as nat);
    if t < 0 {
        lemma_pow_positive(r as int, (-t) as nat);
    } else {
        lemma_pow_positive(r as int, t as nat);
    }
    let nw = pow(2, neg_part(k));
    let pw = pow(2, pos_part(k));
    let rn = pow(r as int, neg_part(s));
    let rp = pow(r as int, pos_part(s));
    let rl = pow(r as int, (len - 1) as nat);
    let cn = cand_num(n, r, t) as int;
    let cd = cand_den(r, t) as int;
    let c = sig * nw * pw;
    assert(cn * nw * (sig * pw * rn * rl) == c * (cn * rn * rl)) by (nonlinear_arith)
        requires
            c == sig * nw * pw,
    ;
    assert(c * (cn * rn * rl) == c * (n * rp * cd));
    assert(c * (n * rp * cd) == sig * n * (nw * rp) * (cd * pw)) by (nonlinear_arith)
        requires
            c == sig * nw * pw,
    ;
}

/// A candidate within a quarter unit of the float's significand reads back as the float.
proof fn lemma_candidate_parses(kind: FloatKind, bits: nat, r: nat, s: int, len: nat, n: nat)
    requires
        0 < bits < inf_bits(kind),
        2 <= r <= 36,
        is_lead_exp(float_num(kind, bits), float_den(kind, bits), r, s),
        1 <= len <= 60,
        n >= 1,
        ({
            let k = exponent2(kind, bits);
            let sig = significand(kind, bits);
            let t = s - len + 1;
            let a = scaled_num(cand_num(n, r, t), k);
            let b = scaled_den(cand_den(r, t), k);
            &&& 4 * a > (4 * sig - 1) * b
            &&& 4 * a < (4 * sig + 1) * b
            &&& (k == min_exp(kind) || a >= pow(2, mant_bits(kind)) * b)
        }),
    ensures
        parsed_bits(kind, radix_digits(n, r), s - len + 1, r, RoundingKind::NearestTiesEven, false)
            == bits,
{
    let k = exponent2(kind, bits);
    let sig = significand(kind, bits);
    let t = s - len + 1;
    lemma_float_parts(kind, bits);
    lemma_lead_range(kind, bits, r, s);
    lemma_radix_digits(n, r);
    let cn = cand_num(n, r, t);
    let cd = cand_den(r, t);
    if t >= 0 {
        lemma_pow_positive(r as int, t as nat);
        let w = pow(r as int, t as nat);
        assert(n * w > 0) by (nonlinear_arith)
            requires
                n >= 1,
                w > 0,
        ;
    } else {
        lemma_pow_positive(r as int, (-t) as nat);
    }
    lemma_pow_adds(2, mant_bits(kind), 1);
    lemma_pow1(2);
    lemma_rounds_to(kind, cn, cd, k, sig);
    assert(ratio_bits(kind, cn, cd, RoundingKind::NearestTiesEven, false) == bits);
}

/// With `M + 4` digits, the truncation or its successor reads back as the float.
pub proof fn lemma_some_candidate_parses(kind: FloatKind, bits: nat, r: nat, s: int)
    requires
        0 < bits < inf_bits(kind),
        2 <= r <= 36,
        is_lead_exp(float_num(kind, bits), float_den(kind, bits), r, s),
    ensures
        !no_round_trip_at(kind, bits, r, s, mant_bits(kind) + 4),
{
    let p = float_num(kind, bits);
    let q = float_den(kind, bits);
    let k = exponent2(kind, bits);
    let sig = significand(kind, bits);
    let len: nat = mant_bits(kind) + 4;
    let t = s - len + 1;
    let u = pow(2, mant_bits(kind));
    lemma_float_parts(kind, bits);
    let big_a = scaled_at(p, q, r, s, len);
    let big_b = lead_den(q, r, s);
    // big_a >= big_b * r^(len - 1) >= 8 * u * big_b
    lemma_pow_positive(r as int, neg_part(s));
    lemma_pow_positive(r as int, pos_part(s));
    lemma_pow_positive(2, neg_part(k));
    lemma_pow_positive(2, pos_part(k));
    let rl = pow(r as int, (len - 1) as nat);
    lemma_pow_base_mono(r, (len - 1) as nat);
    lemma_pow_adds(2, mant_bits(kind), 3);
    lemma2_to64();
    lemma_pow2(3);
    assert(pow(2, (len - 1) as nat) == u * 8);
    let pr = p * pow(r as int, neg_part(s));
    assert(pr >= big_b);
    assert(q > 0) by (nonlinear_arith)
        requires
            q == pow(2, neg_part(k)),
            pow(2, neg_part(k)) > 0,
    ;
    assert(big_b > 0) by (nonlinear_arith)
        requires
            big_b == q * pow(r as int, pos_part(s)),
            q > 0,
            pow(r as int, pos_part(s)) > 0,
    ;
    assert(big_a >= 8 * u * big_b) by (nonlinear_arith)
        requires
            big_a == pr * rl,
            pr >= big_b,
            rl >= u * 8,
            big_b > 0,
    ;
    lemma_fundamental_div_mod(big_a as int, big_b as int);
    let d = big_a / big_b;
    let rem = big_a % big_b;
    assert(d >= 1) by (nonlinear_arith)
        requires
            big_a == big_b * d + rem,
            rem < big_b,
            big_a >= 8 * u * big_b,
            u >= 1,
            big_b > 0,
    ;
    assert(truncated(p, q, r, s, len) == d);
    assert(inexact(p, q, r, s, len) == (rem != 0));
    lemma_candidate_identity(kind, bits, r, s, len, d);
    lemma_candidate_identity(kind, bits, r, s, len, d + 1);
    let af = scaled_num(cand_num(d, r, t), k);
    let bf = scaled_den(cand_den(r, t), k);
    let ac = scaled_num(cand_num(d + 1, r, t), k);
    let bc = bf;
    if t < 0 {
        lemma_pow_positive(r as int, (-t) as nat);
    }
    assert(bf > 0) by (nonlinear_arith)
        requires
            bf == cand_den(r, t) * pow(2, pos_part(k)),
            cand_den(r, t) >= 1,
            pow(2, pos_part(k)) > 0,
    ;
    // floor: (sig * bf - af) * A == sig * bf * rem
    assert(af * big_a == sig * bf * (big_a - rem)) by (nonlinear_arith)
        requires
            af * big_a == sig * d * big_b * bf,
            big_a == big_b * d + rem,
    ;
    assert(af <= sig * bf) by (nonlinear_arith)
        requires
            af * big_a == sig * bf * (big_a - rem),
            rem >= 0,
            big_a > 0,
            sig * bf >= 0,
    ;
    assert(4 * (sig * bf - af) < bf) by (nonlinear_arith)
        requires
            af * big_a == sig * bf * (big_a - rem),
            rem < big_b,
            sig < 2 * u,
            big_a >= 8 * u * big_b,
            bf > 0,
            big_b > 0,
    ;
    assert(ac * big_a == sig * bc * (big_a + big_b - rem)) by (nonlinear_arith)
        requires
            ac * big_a == sig * (d + 1) * big_b * bc,
            big_a == big_b * d + rem,
    ;
    assert(ac >= sig * bc) by (nonlinear_arith)
        requires
            ac * big_a == sig * bc * (big_a + big_b - rem),
            rem < big_b,
            big_a > 0,
            sig * bc >= 0,
    ;
    assert(4 * (ac - sig * bc) < bc) by (nonlinear_arith)
        requires
            ac * big_a == sig * bc * (big_a + big_b - rem),
            rem >= 0,
            sig < 2 * u,
            big_a >= 8 * u * big_b,
            bc > 0,
            big_b > 0,
    ;
    if rem == 0 || k == min_exp(kind) || sig > u {
        assert(af >= u * bf || k == min_exp(kind)) by (nonlinear_arith)
            requires
                rem == 0 ==> af * big_a == sig * bf * big_a,
                k == min_exp(kind) || sig >= u,
                rem == 0 || k == min_exp(kind) || sig >= u + 1,
                4 * (sig * bf - af) < bf,
                big_a > 0,
                bf > 0,
        ;
        assert(4 * af > (4 * sig - 1) * bf && 4 * af < (4 * sig + 1) * bf) by (nonlinear_arith)
            requires
                4 * (sig * bf - af) < bf,
                af <= sig * bf,
                bf > 0,
        ;
        lemma_candidate_parses(kind, bits, r, s, len, d);
    } else {
        assert(ac >= u * bc);
        assert(4 * ac > (4 * sig - 1) * bc && 4 * ac < (4 * sig + 1) * bc) by (nonlinear_arith)
            requires
                4 * (ac - sig * bc) < bc,
                ac >= sig * bc,
                bc > 0,
        ;
        lemma_candidate_parses(kind, bits, r, s, len, d + 1);
    }
}

/// Round trip: the digits and exponent that `format_shortest` gives for a
/// positive finite float, read back by `to_native` in the same radix with
/// nearest-even rounding, are that float.
pub proof fn lemma_format_round_trip(kind: FloatKind, bits: nat, r: nat, ds: Seq<u8>, e: int)
    requires
        0 < bits < inf_bits(kind),
        2 <= r <= 36,
        is_shortest(kind, bits, r, ds, e),
    ensures
        parsed_bits(kind, ds, e, r, RoundingKind::NearestTiesEven, false) == bits,
{
}

/// Shortness: the output's last digit sits `n = lead - e + 1` places below
/// the leading digit of the value, and at every shorter length neither
/// neighbour of the value (truncated, or truncated plus one unit in the last
/// place) reads back as the float.
pub proof fn lemma_format_shortest(kind: FloatKind, bits: nat, r: nat, ds: Seq<u8>, e: int, l: nat)
    requires
        0 < bits < inf_bits(kind),
        2 <= r <= 36,
        is_shortest(kind, bits, r, ds, e),
        1 <= l < lead_exp(float_num(kind, bits), float_den(kind, bits), r) - e + 1,
    ensures
        no_round_trip_at(
            kind,
            bits,
            r,
            lead_exp(float_num(kind, bits), float_den(kind, bits), r),
            l,
        ),
{
}

/// The truncation one digit shorter is the truncation with its last digit dropped.
proof fn lemma_truncated_prev(p: nat, q: nat, r: nat, s: int, len: nat)
    requires
        len >= 2,
        2 <= r <= 36,
        lead_den(q, r, s) > 0,
    ensures
        ({
            let d = truncated(p, q, r, s, len);
            let dp = truncated(p, q, r, s, (len - 1) as nat);
            &&& d / r == dp
            &&& (d + 1) / r == dp || ((d + 1) / r == dp + 1 && inexact(p, q, r, s, (len - 1) as nat))
            &&& inexact(p, q, r, s, len) ==> inexact(p, q, r, s, (len - 1) as nat)
        }),
{
    let b = lead_den(q, r, s) as int;
    let a = scaled_at(p, q, r, s, (len - 1) as nat) as int;
    lemma_scaled_next(p, q, r, s, (len - 1) as nat);
    assert(scaled_at(p, q, r, s, len) == a * r);
    lemma_fundamental_div_mod(a, b);
    let dp = a / b;
    let rp = a % b;
    let c = (rp * r) / b;
    lemma_fundamental_div_mod(rp * r, b);
    let rc = (rp * r) % b;
    assert(0 <= c < r) by (nonlinear_arith)
        requires
            rp * r == b * c + rc,
            0 <= rc < b,
            0 <= rp < b,
            r >= 2,
    ;
    assert(a * r == b * (r * dp + c) + rc) by (nonlinear_arith)
        requires
            a == b * dp + rp,
            rp * r == b * c + rc,
    ;
    vstd::arithmetic::div_mod::lemma_fundamental_div_mod_converse(a * r, b, r * dp + c, rc);
    let d = r * dp + c;
    vstd::arithmetic::div_mod::lemma_fundamental_div_mod_converse(d, r as int, dp, c);
    if c + 1 < r {
        vstd::arithmetic::div_mod::lemma_fundamental_div_mod_converse(d + 1, r as int, dp, c + 1);
    } else {
        assert(d + 1 == r * (dp + 1) + 0) by (nonlinear_arith)
            requires
                d == r * dp + c,
                c + 1 == r,
        ;
        vstd::arithmetic::div_mod::lemma_fundamental_div_mod_converse(d + 1, r as int, dp + 1, 0);
        if rp == 0 {
            assert(c == 0) by (nonlinear_arith)
                requires
                    rp == 0,
                    rp * r == b * c + rc,
                    0 <= rc < b,
                    c >= 0,
            ;
        }
    }
    if rp == 0 {
        assert(rc == 0) by (nonlinear_arith)
            requires
                rp == 0,
                rp * r == b * c + rc,
                0 <= rc < b,
                c >= 0,
        ;
    }
}

proof fn lemma_lead_from(p: nat, q: nat, r: nat, t: int, hi: int)
    requires
        at_least_pow(p, q, r, t),
        !at_least_pow(p, q, r, hi),
        t < hi,
    ensures
        is_lead_exp(p, q, r, lead_exp(p, q, r)),
    decreases hi - t,
{
    if !at_least_pow(p, q, r, t + 1) {
        assert(is_lead_exp(p, q, r, t));
    } else {
        lemma_lead_from(p, q, r, t + 1, hi);
    }
}

/// The value of every positive finite float has a leading-digit exponent.
pub proof fn lemma_lead_exp_exists(kind: FloatKind, bits: nat, r: nat)
    requires
        0 < bits < inf_bits(kind),
        2 <= r <= 36,
    ensures
        is_lead_exp(float_num(kind, bits), float_den(kind, bits), r, lead_exp(
            float_num(kind, bits),
            float_den(kind, bits),
            r,
        )),
{
    lemma_float_parts(kind, bits);
    let p = float_num(kind, bits);
    let q = float_den(kind, bits);
    let sig = significand(kind, bits);
    let k = exponent2(kind, bits);
    let u = pow(2, mant_bits(kind));
    lemma_pow_adds(2, mant_bits(kind), 1);
    lemma_pow1(2);
    lemma_pow0(2);
    lemma_pow0(r as int);
    lemma_pow_positive(2, pos_part(k));
    lemma_pow_positive(2, neg_part(k));
    let w = pow(2, pos_part(k));
    assert(p >= 1) by (nonlinear_arith)
        requires
            p == sig * w,
            sig > 0,
            w > 0,
    ;
    // At -1074: q <= 2^1074 <= r^1074 <= p * r^1074.
    lemma_pow_base_mono(r, 1074);
    lemma_pow_increases(2, neg_part(k), 1074);
    let r1 = pow(r as int, 1074);
    assert(p * r1 >= r1) by (nonlinear_arith)
        requires
            p >= 1,
            r1 >= 0,
    ;
    assert(at_least_pow(p, q, r, -1074));
    // At 1025: p < 2^1024 < r^1025 <= q * r^1025.
    lemma_pow_base_mono(r, 1025);
    lemma_pow_increases(2, mant_bits(kind) + 1 + pos_part(k), 1024);
    lemma_pow_adds(2, mant_bits(kind) + 1, pos_part(k));
    lemma_pow_strictly_increases(2, 1024, 1025);
    assert(sig * w < 2 * u * w) by (nonlinear_arith)
        requires
            sig < 2 * u,
            w > 0,
    ;
    let r2 = pow(r as int, 1025);
    assert(q >= 1);
    assert(q * r2 >= r2) by (nonlinear_arith)
        requires
            q >= 1,
            r2 >= 0,
    ;
    assert(!at_least_pow(p, q, r, 1025));
    lemma_lead_from(p, q, r, -1074, 1025);
}

/// No trailing digit can go: the output with its last digit dropped (and the
/// exponent raised by one) reads back as a different float.
pub proof fn lemma_format_no_trailing_digit(kind: FloatKind, bits: nat, r: nat, ds: Seq<u8>, e: int)
    requires
        0 < bits < inf_bits(kind),
        2 <= r <= 36,
        is_shortest(kind, bits, r, ds, e),
    ensures
        parsed_bits(kind, ds.drop_last(), e + 1, r, RoundingKind::NearestTiesEven, false) != bits,
{
    lemma_lead_exp_exists(kind, bits, r);
    let p = float_num(kind, bits);
    let q = float_den(kind, bits);
    let s = lead_exp(p, q, r);
    let n = s - e + 1;
    let d = truncated(p, q, r, s, n as nat);
    assert(digits_value(Seq::<u8>::empty(), r) == 0);
    if ds == seq![1u8] {
        assert(ds.drop_last() =~= Seq::<u8>::empty());
    } else {
        lemma_float_parts(kind, bits);
        lemma_lead_bound(p, q, r, s);
        let b = lead_den(q, r, s);
        let v: nat = if ds == radix_digits(d, r) {
            d
        } else {
            d + 1
        };
        lemma_radix_digits(v, r);
        assert(ds == radix_digits(v, r));
        assert(v > 0) by {
            if v == 0 {
                assert(ds.len() == 0);
                assert(ds == radix_digits(d, r));
            }
        }
        assert(ds.drop_last() == radix_digits(v / r, r));
        if n == 1 {
            assert(scaled_at(p, q, r, s, 1) < r * b);
            assert(d < r) by (nonlinear_arith)
                requires
                    d == scaled_at(p, q, r, s, 1) / b,
                    scaled_at(p, q, r, s, 1) < r * b,
                    b > 0,
            ;
            if v < r {
                vstd::arithmetic::div_mod::lemma_fundamental_div_mod_converse(v as int, r as int, 0, v as int);
                assert(v / r == 0);
                assert(radix_digits(0, r) =~= Seq::<u8>::empty());
            } else {
                assert(v == r);
                vstd::arithmetic::div_mod::lemma_fundamental_div_mod_converse(v as int, r as int, 1, 0);
                assert(v / r == 1);
                assert(radix_digits(1, r) == radix_digits(0, r).push(1u8));
                assert(radix_digits(1, r) =~= seq![1u8]);
                assert(radix_digits(r, r) == radix_digits(1, r).push(0u8));
                assert(ds.len() == 2);
            }
        } else {
            lemma_truncated_prev(p, q, r, s, n as nat);
            let dp = truncated(p, q, r, s, (n - 1) as nat);
            assert(no_round_trip_at(kind, bits, r, s, (n - 1) as nat));
            assert(s - (n - 1) + 1 == e + 1);
        }
    }
}

/// The value of finite float bits `c` in units of the smallest subnormal `2^min_exp`.
pub open spec fn units(kind: FloatKind, c: nat) -> nat {
    significand(kind, c) * pow(2, (exponent2(kind, c) - min_exp(kind)) as nat) as nat
}

/// Distance between two integers.
pub open spec fn distance(x: int, y: int) -> int {
    if x >= y {
        x - y
    } else {
        y - x
    }
}

/// Every finite float has a significand below `2^(M + 1)` and an exponent not
/// below the subnormal one.
proof fn lemma_float_bounds(kind: FloatKind, c: nat)
    requires
        c < inf_bits(kind),
    ensures
        significand(kind, c) < 2 * pow(2, mant_bits(kind)),
        exponent2(kind, c) >= min_exp(kind),
{
    if c > 0 {
        lemma_float_parts(kind, c);
    } else {
        lemma_pow_positive(2, mant_bits(kind));
        assert(c / (pow(2, mant_bits(kind)) as nat) == 0);
    }
}

/// Bits built from an exponent and a significand decode to the same value.
proof fn lemma_encoding_units(kind: FloatKind, k: int, m: nat)
    requires
        k >= min_exp(kind),
        m <= 2 * pow(2, mant_bits(kind)),
        k == min_exp(kind) || m >= pow(2, mant_bits(kind)),
        (k - min_exp(kind)) * pow(2, mant_bits(kind)) + m < inf_bits(kind),
    ensures
        units(kind, ((k - min_exp(kind)) * pow(2, mant_bits(kind)) + m) as nat) == m * pow(
            2,
            (k - min_exp(kind)) as nat,
        ),
{
    let u = pow(2, mant_bits(kind));
    lemma_pow_positive(2, mant_bits(kind));
    let emin = min_exp(kind);
    let d = k - emin;
    let c = d * u + m;
    lemma_pow0(2);
    lemma_pow1(2);
    lemma_pow_positive(2, d as nat);
    lemma_pow_positive(2, (d + 1) as nat);
    if m < u {
        // Subnormal: k is the subnormal exponent.
        assert(d == 0);
        vstd::arithmetic::div_mod::lemma_fundamental_div_mod_converse(c, u, 0, m as int);
        assert(significand(kind, c as nat) == m);
        assert(exponent2(kind, c as nat) == emin);
        assert(m * 1 == m);
    } else if m < 2 * u {
        assert(c == (d + 1) * u + (m - u)) by (nonlinear_arith)
            requires
                c == d * u + m,
        ;
        vstd::arithmetic::div_mod::lemma_fundamental_div_mod_converse(c, u, d + 1, m - u);
        assert(significand(kind, c as nat) == m);
        assert(exponent2(kind, c as nat) == k);
    } else {
        assert(c == (d + 2) * u + 0) by (nonlinear_arith)
            requires
                c == d * u + m,
                m == 2 * u,
        ;
        vstd::arithmetic::div_mod::lemma_fundamental_div_mod_converse(c, u, d + 2, 0);
        lemma_pow_adds(2, d as nat, 1);
        let g = pow(2, d as nat);
        assert(significand(kind, c as nat) == u);
        assert(exponent2(kind, c as nat) == k + 1);
        assert((k + 1 - emin) as nat == d as nat + 1);
        assert(u * (g * 2) == m * g) by (nonlinear_arith)
            requires
                m == 2 * u,
        ;
    }
}

proof fn lemma_scaled_difference(x: int, t: int, y: int, a: int, f: int, bb: int)
    requires
        x * bb == f * y,
        t * bb == f * a,
    ensures
        (x - t) * bb == f * (y - a),
{
    assert((x - t) * bb == x * bb - t * bb) by (nonlinear_arith);
    assert(f * (y - a) == f * y - f * a) by (nonlinear_arith);
}

/// Distances scale with a positive factor.
proof fn lemma_distance_scaled(x: int, t: int, y: int, a: int, f: int, bb: int)
    requires
        f > 0,
        bb > 0,
        (x - t) * bb == f * (y - a),
    ensures
        distance(x, t) * bb == f * distance(y, a),
{
    if x >= t {
        assert(y >= a) by (nonlinear_arith)
            requires
                (x - t) * bb == f * (y - a),
                x >= t,
                f > 0,
                bb > 0,
        ;
        if y == a {
            assert(x == t) by (nonlinear_arith)
                requires
                    (x - t) * bb == f * (y - a),
                    y == a,
                    bb > 0,
            ;
        }
    } else {
        assert(y < a) by (nonlinear_arith)
            requires
                (x - t) * bb == f * (y - a),
                x < t,
                f > 0,
                bb > 0,
        ;
        assert((t - x) * bb == f * (a - y)) by (nonlinear_arith)
            requires
                (x - t) * bb == f * (y - a),
        ;
    }
}

/// Correct rounding: the float that nearest-even rounding gives for `p / q`,
/// when finite, is at least as near to `p / q` as every finite float. Values
/// are compared in units of the smallest subnormal, scaled by `q`.
pub proof fn lemma_nearest_float(kind: FloatKind, p: nat, q: nat, c: nat)
    requires
        p > 0,
        q > 0,
        ratio_bits(kind, p, q, RoundingKind::NearestTiesEven, false) < inf_bits(kind),
        c < inf_bits(kind),
    ensures
        ({
            let b = ratio_bits(kind, p, q, RoundingKind::NearestTiesEven, false);
            let t = scaled_num(p, min_exp(kind)) as int;
            distance((units(kind, b) * q) as int, t) <= distance((units(kind, c) * q) as int, t)
        }),
{
    let nte = RoundingKind::NearestTiesEven;
    let emin = min_exp(kind);
    let u = pow(2, mant_bits(kind));
    lemma_pow_positive(2, mant_bits(kind));
    lemma_pow_adds(2, mant_bits(kind), 1);
    lemma_pow1(2);
    lemma_pow0(2);
    lemma_ulp_exp_exists(kind, p, q);
    let k = ulp_exp(kind, p, q);
    let a = scaled_num(p, k) as int;
    let bb = scaled_den(q, k) as int;
    let m = rounded_at(p, q, k, nte, false) as int;
    let g = pow(2, (k - emin) as nat);
    lemma_pow_positive(2, (k - emin) as nat);
    lemma_pow_positive(2, pos_part(k));
    lemma_pow_positive(2, neg_part(k));
    assert(bb > 0) by (nonlinear_arith)
        requires
            bb == q * pow(2, pos_part(k)),
            q > 0,
            pow(2, pos_part(k)) > 0,
    ;
    lemma_nearest_within_half_ulp(kind, p, q, false);
    lemma_fundamental_div_mod(a, bb);
    let quot = a / bb;
    // The rounded significand lies in the binade of `p / q`.
    assert(fits_at(kind, p, q, k));
    assert(a < 2 * u * bb);
    assert(quot < 2 * u) by (nonlinear_arith)
        requires
            a == bb * quot + a % bb,
            a % bb >= 0,
            a < 2 * u * bb,
            bb > 0,
    ;
    assert(m <= 2 * u);
    if k > emin {
        lemma_scaled_double(p, q, k);
        let a1 = scaled_num(p, k - 1);
        let b1 = scaled_den(q, k - 1);
        lemma_pow_positive(2, pos_part(k - 1));
        assert(b1 > 0) by (nonlinear_arith)
            requires
                b1 == q * pow(2, pos_part(k - 1)),
                q > 0,
                pow(2, pos_part(k - 1)) > 0,
        ;
        assert(a1 >= 2 * u * b1);
        assert(a >= u * bb) by (nonlinear_arith)
            requires
                a1 * bb == 2 * a * b1,
                a1 >= 2 * u * b1,
                b1 > 0,
                bb > 0,
        ;
        assert(quot >= u) by (nonlinear_arith)
            requires
                a == bb * quot + a % bb,
                a % bb < bb,
                a >= u * bb,
                bb > 0,
        ;
    }
    let b = ratio_bits(kind, p, q, nte, false);
    assert(b == (k - emin) * u + m);
    lemma_encoding_units(kind, k, m as nat);
    assert(units(kind, b) == m * g);
    // The target in units of the smallest subnormal, against the scaled ratio.
    let t = scaled_num(p, emin) as int;
    let te = neg_part(emin);
    lemma_pow_positive(2, te);
    assert(t == p * pow(2, te));
    lemma_pow_adds(2, te, pos_part(k));
    lemma_pow_adds(2, neg_part(k), (k - emin) as nat);
    assert(te + pos_part(k) == neg_part(k) + (k - emin));
    assert(t * bb == a * q * g) by (nonlinear_arith)
        requires
            t == p * pow(2, te),
            a == p * pow(2, neg_part(k)),
            bb == q * pow(2, pos_part(k)),
            pow(2, te) * pow(2, pos_part(k)) == pow(2, neg_part(k)) * g,
    ;
    let f = g * q;
    assert(f > 0) by (nonlinear_arith)
        requires
            f == g * q,
            g > 0,
            q > 0,
    ;
    assert(t * bb == f * a) by (nonlinear_arith)
        requires
            t * bb == a * q * g,
            f == g * q,
    ;
    assert(m * g * q * bb == f * (m * bb)) by (nonlinear_arith)
        requires
            f == g * q,
    ;
    lemma_scaled_difference(m * g * q, t, m * bb, a, f, bb);
    lemma_distance_scaled(m * g * q, t, m * bb, a, f, bb);
    let db = distance(m * g * q, t);
    assert(2 * db * bb <= f * bb) by (nonlinear_arith)
        requires
            db * bb == f * distance(m * bb, a),
            2 * distance(m * bb, a) <= bb,
            f > 0,
    ;
    assert(2 * db <= f) by (nonlinear_arith)
        requires
            2 * db * bb <= f * bb,
            bb > 0,
    ;
    lemma_float_bounds(kind, c);
    let sc = significand(kind, c) as int;
    let kc = exponent2(kind, c);
    let w = pow(2, (kc - emin) as nat);
    lemma_pow_positive(2, (kc - emin) as nat);
    let uc = sc * w;
    assert(units(kind, c) == uc);
    if kc >= k {
        let h = pow(2, (kc - k) as nat);
        lemma_pow_adds(2, (kc - k) as nat, (k - emin) as nat);
        assert(w == h * g);
        let j = sc * h;
        assert(uc == j * g) by (nonlinear_arith)
            requires
                uc == sc * w,
                w == h * g,
                j == sc * h,
        ;
        assert(uc * q * bb == f * (j * bb)) by (nonlinear_arith)
            requires
                f == g * q,
                uc == j * g,
        ;
        lemma_scaled_difference(uc * q, t, j * bb, a, f, bb);
        lemma_distance_scaled(uc * q, t, j * bb, a, f, bb);
        // No multiple of the ulp is nearer than the rounded one.
        let dm = distance(m * bb, a);
        let dj = distance(j * bb, a);
        if j != m {
            assert(dj >= dm) by (nonlinear_arith)
                requires
                    2 * (m * bb - a) <= bb,
                    2 * (a - m * bb) <= bb,
                    j != m,
                    bb > 0,
                    dj == distance(j * bb, a),
                    dm == distance(m * bb, a),
            ;
        }
        assert(db * bb <= distance(uc * q, t) * bb) by (nonlinear_arith)
            requires
                db * bb == f * dm,
                distance(uc * q, t) * bb == f * dj,
                dj >= dm,
                f > 0,
        ;
        assert(db <= distance(uc * q, t)) by (nonlinear_arith)
            requires
                db * bb <= distance(uc * q, t) * bb,
                bb > 0,
        ;
    } else {
        // A float of a lower binade lies at least half an ulp below `p / q`.
        lemma_pow_adds(2, (kc - emin) as nat, 1);
        lemma_pow_increases(2, (kc - emin + 1) as nat, (k - emin) as nat);
        assert(2 * w <= g);
        assert(2 * uc <= (2 * u - 1) * g) by (nonlinear_arith)
            requires
                uc == sc * w,
                0 <= sc < 2 * u,
                2 * w <= g,
                w > 0,
        ;
        assert(a >= u * bb);
        let qb = q * bb;
        assert(qb > 0) by (nonlinear_arith)
            requires
                qb == q * bb,
                q > 0,
                bb > 0,
        ;
        let x1 = t * bb;
        let x2 = uc * q * bb;
        assert(x1 == a * q * g);
        assert(2 * x2 <= (2 * u - 1) * g * qb) by (nonlinear_arith)
            requires
                x2 == uc * q * bb,
                qb == q * bb,
                2 * uc <= (2 * u - 1) * g,
                qb > 0,
        ;
        assert(2 * x1 >= 2 * u * g * qb) by (nonlinear_arith)
            requires
                x1 == a * q * g,
                qb == q * bb,
                a >= u * bb,
                q > 0,
                g > 0,
        ;
        assert(f * bb == g * qb) by (nonlinear_arith)
            requires
                f == g * q,
                qb == q * bb,
        ;
        assert((2 * u - 1) * g * qb == 2 * u * g * qb - g * qb) by (nonlinear_arith);
        assert((t - uc * q) * bb * 2 == 2 * x1 - 2 * x2) by (nonlinear_arith)
            requires
                x1 == t * bb,
                x2 == uc * q * bb,
        ;
        assert((t - uc * q) * bb * 2 >= f * bb);
        assert(2 * (t - uc * q) >= f) by (nonlinear_arith)
            requires
                (t - uc * q) * bb * 2 >= f * bb,
                bb > 0,
        ;
    }
}

} // verus!
