//! IEEE-754 binary formats and correct rounding of a positive ratio of naturals.
use crate::bignat::{lemma_limbs_value_bound, limb_base, BigNat};
use vstd::arithmetic::div_mod::*;
use vstd::arithmetic::power::*;
use vstd::arithmetic::power2::*;
use vstd::prelude::*;

verus! {

/// The target binary interchange format.
#[derive(Clone, Copy, Debug, PartialEq, Eq, Structural)]
pub enum FloatKind {
    Binary32,
    Binary64,
}

/// How a value that falls between two adjacent floats is resolved.
#[derive(Clone, Copy, Debug, PartialEq, Eq, Structural)]
pub enum RoundingKind {
    NearestTiesEven,
    NearestTiesAwayFromZero,
    TowardPositive,
    TowardNegative,
    TowardZero,
}

/// Stored mantissa width in bits (the implicit leading bit excluded).
pub open spec fn mant_bits(kind: FloatKind) -> nat {
    match kind {
        FloatKind::Binary32 => 23,
        FloatKind::Binary64 => 52,
    }
}

/// Binary exponent of the smallest subnormal, `2^min_exp`: the weight of the
/// last significand bit of every subnormal.
pub open spec fn min_exp(kind: FloatKind) -> int {
    match kind {
        FloatKind::Binary32 => -149,
        FloatKind::Binary64 => -1074,
    }
}

/// Bit pattern of positive infinity.
pub open spec fn inf_bits(kind: FloatKind) -> nat {
    match kind {
        FloatKind::Binary32 => 0x7F80_0000,
        FloatKind::Binary64 => 0x7FF0_0000_0000_0000,
    }
}

/// Bit pattern of the sign.
pub open spec fn sign_bits(kind: FloatKind) -> nat {
    match kind {
        FloatKind::Binary32 => 0x8000_0000,
        FloatKind::Binary64 => 0x8000_0000_0000_0000,
    }
}

impl FloatKind {
    pub fn mantissa_bits(self) -> (r: u64)
        ensures
            r == mant_bits(self),
    {
        match self {
            FloatKind::Binary32 => 23,
            FloatKind::Binary64 => 52,
        }
    }

    pub fn min_exponent(self) -> (r: i64)
        ensures
            r == min_exp(self),
    {
        match self {
            FloatKind::Binary32 => -149,
            FloatKind::Binary64 => -1074,
        }
    }

    pub fn infinity_bits(self) -> (r: u64)
        ensures
            r == inf_bits(self),
    {
        match self {
            FloatKind::Binary32 => 0x7F80_0000,
            FloatKind::Binary64 => 0x7FF0_0000_0000_0000,
        }
    }

    /// Two raised to the stored mantissa width.
    pub fn mantissa_unit(self) -> (r: u64)
        ensures
            r == pow(2, mant_bits(self)),
            2 * r == pow(2, mant_bits(self) + 1),
            0x80_0000 <= r <= 0x10_0000_0000_0000,
    {
        proof {
            lemma2_to64();
            lemma2_to64_rest();
            lemma_pow2(mant_bits(self));
            lemma_pow2(mant_bits(self) + 1);
        }
        match self {
            FloatKind::Binary32 => 0x80_0000,
            FloatKind::Binary64 => 0x10_0000_0000_0000,
        }
    }

    /// The biased exponent field of infinity.
    pub fn exponent_limit(self) -> (r: u64)
        ensures
            r * pow(2, mant_bits(self)) == inf_bits(self),
            r <= 2047,
    {
        proof {
            lemma2_to64();
            lemma2_to64_rest();
            lemma_pow2(mant_bits(self));
        }
        match self {
            FloatKind::Binary32 => 255,
            FloatKind::Binary64 => 2047,
        }
    }

    pub fn sign_mask(self) -> (r: u64)
        ensures
            r == sign_bits(self),
    {
        match self {
            FloatKind::Binary32 => 0x8000_0000,
            FloatKind::Binary64 => 0x8000_0000_0000_0000,
        }
    }
}

/// The positive part of `k`.
pub open spec fn pos_part(k: int) -> nat {
    if k >= 0 {
        k as nat
    } else {
        0
    }
}

/// The negative part of `k`, as a natural.
pub open spec fn neg_part(k: int) -> nat {
    if k < 0 {
        (-k) as nat
    } else {
        0
    }
}

/// Numerator of `(p / q) / 2^k` with both sides made integral.
pub open spec fn scaled_num(p: nat, k: int) -> nat {
    p * pow(2, neg_part(k)) as nat
}

/// Denominator of `(p / q) / 2^k` with both sides made integral.
pub open spec fn scaled_den(q: nat, k: int) -> nat {
    q * pow(2, pos_part(k)) as nat
}

/// `p / q` is below `2^(M + 1 + k)`: at binary exponent `k` its integral
/// part has at most `M + 1` bits.
pub open spec fn fits_at(kind: FloatKind, p: nat, q: nat, k: int) -> bool {
    scaled_num(p, k) < pow(2, mant_bits(kind) + 1) * scaled_den(q, k)
}

/// `k` is the exponent of the unit in the last place of `p / q`: the least
/// exponent, not below the subnormal one, at which `p / q` fits.
pub open spec fn is_ulp_exp(kind: FloatKind, p: nat, q: nat, k: int) -> bool {
    &&& k >= min_exp(kind)
    &&& fits_at(kind, p, q, k)
    &&& (k == min_exp(kind) || !fits_at(kind, p, q, k - 1))
}

pub open spec fn ulp_exp(kind: FloatKind, p: nat, q: nat) -> int {
    choose|k: int| is_ulp_exp(kind, p, q, k)
}

/// Whether a truncated quotient `quot` with remainder `rem` over `den` is
/// rounded up, for a value of the given sign.
pub open spec fn rounds_up(
    mode: RoundingKind,
    negative: bool,
    quot: nat,
    rem: nat,
    den: nat,
) -> bool {
    match mode {
        RoundingKind::NearestTiesEven => 2 * rem > den || (2 * rem == den && quot % 2 == 1),
        RoundingKind::NearestTiesAwayFromZero => 2 * rem >= den && rem > 0,
        RoundingKind::TowardPositive => !negative && rem > 0,
        RoundingKind::TowardNegative => negative && rem > 0,
        RoundingKind::TowardZero => false,
    }
}

/// The significand of `p / q` in units of `2^k`, rounded.
pub open spec fn rounded_at(
    p: nat,
    q: nat,
    k: int,
    mode: RoundingKind,
    negative: bool,
) -> nat {
    let a = scaled_num(p, k);
    let b = scaled_den(q, k);
    let quot = a / b;
    let rem = a % b;
    quot + if rounds_up(mode, negative, quot, rem, b) {
        1nat
    } else {
        0nat
    }
}

/// Bits of the float nearest `p / q` under `mode` (sign not included):
/// zero for zero, infinity past the largest finite value.
pub open spec fn ratio_bits(
    kind: FloatKind,
    p: nat,
    q: nat,
    mode: RoundingKind,
    negative: bool,
) -> nat {
    if p == 0 {
        0
    } else {
        let k = ulp_exp(kind, p, q);
        let b = (k - min_exp(kind)) * pow(2, mant_bits(kind)) + rounded_at(p, q, k, mode, negative);
        if b >= inf_bits(kind) {
            inf_bits(kind)
        } else {
            b as nat
        }
    }
}

proof fn lemma_fits_step(kind: FloatKind, p: nat, q: nat, k: int)
    requires
        fits_at(kind, p, q, k),
    ensures
        fits_at(kind, p, q, k + 1),
{
    let c = pow(2, mant_bits(kind) + 1);
    lemma_pow_positive(2, mant_bits(kind) + 1);
    if k >= 0 {
        lemma_pow_adds(2, k as nat, 1);
        lemma_pow1(2);
        lemma_pow_positive(2, k as nat);
        let a = pow(2, k as nat);
        assert(c * (q * a) <= c * (q * (a * 2))) by (nonlinear_arith)
            requires
                c > 0,
                a > 0,
        ;
    } else {
        let n = (-k - 1) as nat;
        lemma_pow_adds(2, n, 1);
        lemma_pow1(2);
        lemma_pow_positive(2, n);
        let a = pow(2, n);
        assert(p * a <= p * (a * 2)) by (nonlinear_arith)
            requires
                a > 0,
        ;
        if k + 1 == 0 {
            lemma_pow0(2);
        }
    }
}

proof fn lemma_fits_mono(kind: FloatKind, p: nat, q: nat, k1: int, k2: int)
    requires
        fits_at(kind, p, q, k1),
        k1 <= k2,
    ensures
        fits_at(kind, p, q, k2),
    decreases k2 - k1,
{
    if k1 < k2 {
        lemma_fits_mono(kind, p, q, k1, k2 - 1);
        lemma_fits_step(kind, p, q, k2 - 1);
    }
}

/// The ulp exponent is unique.
pub proof fn lemma_ulp_exp_unique(kind: FloatKind, p: nat, q: nat, k: int)
    requires
        is_ulp_exp(kind, p, q, k),
    ensures
        ulp_exp(kind, p, q) == k,
{
    let j = ulp_exp(kind, p, q);
    assert(is_ulp_exp(kind, p, q, j));
    if j < k {
        lemma_fits_mono(kind, p, q, j, k - 1);
    } else if k < j {
        lemma_fits_mono(kind, p, q, k, j - 1);
    }
}


/// Whether `p / q` fits at binary exponent `k`.
fn fits(kind: FloatKind, p: &BigNat, q: &BigNat, k: i64) -> (r: bool)
    requires
        -0x100_0000_0000 <= k <= 0x100_0000_0000,
    ensures
        r == fits_at(kind, p@, q@, k as int),
{
    let m = kind.mantissa_bits();
    let mut a = p.copy();
    if k < 0 {
        a.shl((0 - k) as u64);
    }
    let mut b = q.copy();
    let up: u64 = if k > 0 {
        k as u64
    } else {
        0
    };
    b.shl(up + m + 1);
    proof {
        lemma_scaled_den_shift(kind, q@, k as int, up, b@);
        if k >= 0 {
            lemma_scaled_num_unshifted(p@, k as int);
        } else {
            assert(neg_part(k as int) == (0 - k) as u64);
            lemma_pow_positive(2, neg_part(k as int));
        }
        assert(a@ == scaled_num(p@, k as int));
    }
    BigNat::compare(&a, &b) == -1
}

/// An unshifted numerator is unchanged.
pub proof fn lemma_scaled_num_unshifted(p: nat, k: int)
    requires
        k >= 0,
    ensures
        scaled_num(p, k) == p,
{
    assert(neg_part(k) == 0);
    lemma_pow0(2);
    assert(pow(2, 0) as nat == 1);
    assert(p * 1 == p);
}

/// An unshifted denominator is unchanged.
pub proof fn lemma_scaled_den_unshifted(q: nat, k: int)
    requires
        k <= 0,
    ensures
        scaled_den(q, k) == q,
{
    assert(pos_part(k) == 0);
    lemma_pow0(2);
    assert(pow(2, 0) as nat == 1);
    assert(q * 1 == q);
}

proof fn lemma_scaled_den_shift(kind: FloatKind, q: nat, k: int, up: u64, v: nat)
    requires
        up == pos_part(k),
        up + mant_bits(kind) + 1 <= u64::MAX,
        v == q * pow(2, (up + mant_bits(kind) + 1) as nat),
    ensures
        v == pow(2, mant_bits(kind) + 1) * scaled_den(q, k),
{
    let m = mant_bits(kind);
    lemma_pow_adds(2, up as nat, m + 1);
    assert((up + m + 1) as nat == up as nat + (m + 1));
    let x = pow(2, up as nat);
    let y = pow(2, m + 1);
    lemma_pow_positive(2, up as nat);
    assert(q * (x * y) == y * (q * x)) by (nonlinear_arith);
}

proof fn lemma_fits_far(kind: FloatKind, p: nat, q: nat, l: nat)
    requires
        p < pow(limb_base(), l),
        q > 0,
    ensures
        fits_at(kind, p, q, (32 * l) as int),
{
    lemma2_to64();
    lemma2_to64_rest();
    lemma_pow2(32);
    lemma_pow_multiplies(2, 32, l);
    assert(pow(2, 32) == limb_base());
    assert(pow(limb_base(), l) == pow(2, 32 * l));
    lemma_scaled_num_unshifted(p, (32 * l) as int);
    let a = pow(2, 32 * l);
    let c = pow(2, mant_bits(kind) + 1);
    lemma_pow_positive(2, mant_bits(kind) + 1);
    lemma_pow_positive(2, 32 * l);
    assert(a <= c * (q * a)) by (nonlinear_arith)
        requires
            c >= 1,
            q >= 1,
            a >= 1,
    ;
}

/// The bits of the float nearest `p / q` under `mode`, without the sign.
pub fn round_ratio(kind: FloatKind, p: &BigNat, q: &BigNat, mode: RoundingKind, negative: bool) -> (r: u64)
    requires
        p@ > 0,
        q@ > 0,
        p.limbs@.len() <= 0x1_0000_0000,
        q.limbs@.len() <= 0x1_0000_0000,
    ensures
        r == ratio_bits(kind, p@, q@, mode, negative),
        r <= inf_bits(kind),
{
    let m = kind.mantissa_bits();
    let emin = kind.min_exponent();
    let lp = p.limbs.len() as i64;
    let lq = q.limbs.len() as i64;
    let kmax: i64 = 32 * lp;
    let mut k: i64 = 32 * (lp - lq) - (m as i64) - 1;
    if k < emin {
        k = emin;
    }
    proof {
        lemma_limbs_value_bound(p.limbs@);
        lemma_fits_far(kind, p@, q@, lp as nat);
    }
    while k > emin && fits(kind, p, q, k - 1)
        invariant
            emin == min_exp(kind),
            emin <= k <= kmax,
            kmax <= 0x20_0000_0000,
            fits_at(kind, p@, q@, kmax as int),
        decreases k - emin,
    {
        k = k - 1;
    }
    while !fits(kind, p, q, k)
        invariant
            emin == min_exp(kind),
            emin <= k <= kmax,
            kmax <= 0x20_0000_0000,
            fits_at(kind, p@, q@, kmax as int),
            k == emin || !fits_at(kind, p@, q@, k - 1),
        decreases kmax - k,
    {
        k = k + 1;
    }
    proof {
        lemma_ulp_exp_unique(kind, p@, q@, k as int);
    }
    // Long division of the scaled numerator by the scaled denominator, one bit at a time.
    let mut rem = p.copy();
    if k < 0 {
        rem.shl((0 - k) as u64);
    }
    let ghost a = rem@;
    let mut bs = q.copy();
    let up: u64 = if k > 0 {
        k as u64
    } else {
        0
    };
    bs.shl(up + m + 1);
    let ghost b = scaled_den(q@, k as int);
    proof {
        lemma_scaled_den_shift(kind, q@, k as int, up, bs@);
        if k >= 0 {
            lemma_scaled_num_unshifted(p@, k as int);
        } else {
            assert(neg_part(k as int) == (0 - k) as u64);
            lemma_pow_positive(2, neg_part(k as int));
        }
        assert(a == scaled_num(p@, k as int));
        assert(fits_at(kind, p@, q@, k as int));
        assert(a < bs@);
        lemma_pow0(2);
        lemma2_to64();
        lemma2_to64_rest();
        lemma_pow2(24);
        lemma_pow2(53);
    }
    let mut quot: u64 = 0;
    let mut t: u64 = 0;
    while t < m + 1
        invariant
            m == mant_bits(kind),
            0 <= t <= m + 1,
            a * pow(2, t as nat) == quot * bs@ + rem@,
            rem@ < bs@,
            quot < pow(2, t as nat),
            pow(2, (m + 1) as nat) <= 0x20_0000_0000_0000,
        decreases m + 1 - t,
    {
        proof {
            lemma_pow_increases(2, t as nat, (m + 1) as nat);
            lemma_pow_adds(2, t as nat, 1);
            lemma_pow1(2);
        }
        let ghost q0 = quot;
        rem.mul_small_add(2, 0);
        if BigNat::compare(&rem, &bs) >= 0 {
            rem = BigNat::sub(&rem, &bs);
            quot = 2 * quot + 1;
            proof {
                assert((2 * q0 + 1) * bs@ == 2 * (q0 * bs@) + bs@) by (nonlinear_arith);
            }
        } else {
            quot = 2 * quot;
            proof {
                assert((2 * q0) * bs@ == 2 * (q0 * bs@)) by (nonlinear_arith);
            }
        }
        proof {
            let w = pow(2, t as nat);
            assert(a * (w * 2) == 2 * (a * w)) by (nonlinear_arith);
            assert(pow(2, (t + 1) as nat) == w * 2);
        }
        t = t + 1;
    }
    let ghost y = pow(2, (m + 1) as nat);
    let ghost r0: int = a - quot * b;
    proof {
        lemma_pow_positive(2, (m + 1) as nat);
        assert(rem@ == r0 * y) by (nonlinear_arith)
            requires
                a * y == quot * (y * b) + rem@,
                r0 == a - quot * b,
        ;
        assert(0 <= r0 < b) by (nonlinear_arith)
            requires
                rem@ == r0 * y,
                rem@ < y * b,
                y > 0,
        ;
        lemma_fundamental_div_mod_converse(a as int, b as int, quot as int, r0);
    }
    let mut twice = rem.copy();
    twice.mul_small_add(2, 0);
    let c = BigNat::compare(&twice, &bs);
    let exact = rem.is_zero();
    proof {
        assert((2 * r0 > b) == (2 * rem@ > bs@)) by (nonlinear_arith)
            requires
                rem@ == r0 * y,
                bs@ == y * b,
                y > 0,
        ;
        assert((2 * r0 == b) == (2 * rem@ == bs@)) by (nonlinear_arith)
            requires
                rem@ == r0 * y,
                bs@ == y * b,
                y > 0,
        ;
        assert((r0 > 0) == (rem@ > 0)) by (nonlinear_arith)
            requires
                rem@ == r0 * y,
                y > 0,
        ;
    }
    let round_up = match mode {
        RoundingKind::NearestTiesEven => c == 1 || (c == 0 && quot % 2 == 1),
        RoundingKind::NearestTiesAwayFromZero => c >= 0 && !exact,
        RoundingKind::TowardPositive => !negative && !exact,
        RoundingKind::TowardNegative => negative && !exact,
        RoundingKind::TowardZero => false,
    };
    let mant: u64 = if round_up {
        quot + 1
    } else {
        quot
    };
    let e = (k - emin) as u64;
    let lim = kind.exponent_limit();
    let unit = kind.mantissa_unit();
    proof {
        assert(mant == rounded_at(p@, q@, k as int, mode, negative));
    }
    if e > lim {
        proof {
            assert(e * unit >= lim * unit + unit) by (nonlinear_arith)
                requires
                    e >= lim + 1,
            ;
            assert(e == k - emin);
        }
        return kind.infinity_bits();
    }
    proof {
        assert(e * unit <= lim * unit) by (nonlinear_arith)
            requires
                e <= lim,
        ;
    }
    let bits = e * unit + mant;
    if bits >= kind.infinity_bits() {
        kind.infinity_bits()
    } else {
        bits
    }
}

proof fn lemma_pow2_above(n: nat)
    ensures
        n < pow(2, n),
    decreases n,
{
    reveal(pow);
    if n > 0 {
        lemma_pow2_above((n - 1) as nat);
        lemma_pow_positive(2, (n - 1) as nat);
    }
}

proof fn lemma_ulp_exp_from(kind: FloatKind, p: nat, q: nat, k: int)
    requires
        k >= min_exp(kind),
        fits_at(kind, p, q, k),
    ensures
        is_ulp_exp(kind, p, q, ulp_exp(kind, p, q)),
    decreases k - min_exp(kind),
{
    if k == min_exp(kind) || !fits_at(kind, p, q, k - 1) {
        assert(is_ulp_exp(kind, p, q, k));
    } else {
        lemma_ulp_exp_from(kind, p, q, k - 1);
    }
}

/// Every positive ratio has an ulp exponent.
pub proof fn lemma_ulp_exp_exists(kind: FloatKind, p: nat, q: nat)
    requires
        q > 0,
    ensures
        is_ulp_exp(kind, p, q, ulp_exp(kind, p, q)),
{
    lemma_pow2_above(p);
    lemma_pow0(2);
    let w = pow(2, p);
    let c = pow(2, mant_bits(kind) + 1);
    lemma_pow_positive(2, mant_bits(kind) + 1);
    assert(scaled_num(p, p as int) == p) by {
        assert(neg_part(p as int) == 0);
        assert(p * 1 == p);
    }
    assert(p < c * (q * w)) by (nonlinear_arith)
        requires
            p < w,
            c >= 1,
            q >= 1,
    ;
    lemma_ulp_exp_from(kind, p, q, p as int);
}

/// Ties go to even: when `p / q` lies exactly halfway between two adjacent
/// multiples of its ulp, nearest-even rounding yields bits whose lowest bit,
/// the last bit of the significand, is zero.
pub proof fn lemma_ties_to_even(kind: FloatKind, p: nat, q: nat, negative: bool)
    requires
        p > 0,
        q > 0,
        ({
            let k = ulp_exp(kind, p, q);
            2 * (scaled_num(p, k) % scaled_den(q, k)) == scaled_den(q, k)
        }),
    ensures
        ratio_bits(kind, p, q, RoundingKind::NearestTiesEven, negative) % 2 == 0,
{
    lemma_ulp_exp_exists(kind, p, q);
    let k = ulp_exp(kind, p, q);
    let a = scaled_num(p, k);
    let b = scaled_den(q, k);
    let quot = a / b;
    let m = rounded_at(p, q, k, RoundingKind::NearestTiesEven, negative);
    if quot % 2 == 1 {
        assert(m == quot + 1);
    } else {
        assert(m == quot);
    }
    assert(m % 2 == 0);
    let u = pow(2, mant_bits(kind));
    lemma_pow_adds(2, 1, (mant_bits(kind) - 1) as nat);
    lemma_pow1(2);
    let h = pow(2, (mant_bits(kind) - 1) as nat);
    assert(u == 2 * h);
    let c = (k - min_exp(kind)) * u + m;
    lemma_pow_positive(2, mant_bits(kind));
    assert(c >= 0) by (nonlinear_arith)
        requires
            c == (k - min_exp(kind)) * u + m,
            k >= min_exp(kind),
            u > 0,
            m >= 0,
    ;
    if c < inf_bits(kind) {
        let e = k - min_exp(kind);
        assert(e * (2 * h) == 2 * (e * h)) by (nonlinear_arith);
        vstd::arithmetic::div_mod::lemma_mod_multiples_vanish(e * h, m as int, 2);
        assert(c % 2 == 0);
        assert(ratio_bits(kind, p, q, RoundingKind::NearestTiesEven, negative) == c);
    } else {
        assert(inf_bits(kind) % 2 == 0);
    }
}

/// Nearest rounding is off by at most half an ulp: at the ulp exponent `k`,
/// `|m * 2^k - p / q| <= 2^k / 2` for the rounded significand `m`.
pub proof fn lemma_nearest_within_half_ulp(kind: FloatKind, p: nat, q: nat, negative: bool)
    requires
        p > 0,
        q > 0,
    ensures
        ({
            let k = ulp_exp(kind, p, q);
            let a = scaled_num(p, k) as int;
            let b = scaled_den(q, k) as int;
            let m = rounded_at(p, q, k, RoundingKind::NearestTiesEven, negative) as int;
            &&& 2 * (m * b - a) <= b
            &&& 2 * (a - m * b) <= b
        }),
{
    let k = ulp_exp(kind, p, q);
    let a = scaled_num(p, k) as int;
    let b = scaled_den(q, k) as int;
    lemma_pow_positive(2, pos_part(k));
    let w = pow(2, pos_part(k));
    assert(b > 0) by (nonlinear_arith)
        requires
            b == q * w,
            q > 0,
            w > 0,
    ;
    let quot = a / b;
    let rem = a % b;
    lemma_fundamental_div_mod(a, b);
    let m = rounded_at(p, q, k, RoundingKind::NearestTiesEven, negative) as int;
    if m == quot + 1 {
        assert(m * b - a == b - rem) by (nonlinear_arith)
            requires
                m == quot + 1,
                a == b * quot + rem,
        ;
    } else {
        assert(a - m * b == rem) by (nonlinear_arith)
            requires
                m == quot,
                a == b * quot + rem,
        ;
    }
}

/// Halving the ulp exponent doubles the scaled ratio.
pub proof fn lemma_scaled_double(p: nat, q: nat, k: int)
    ensures
        scaled_num(p, k - 1) * scaled_den(q, k) == 2 * scaled_num(p, k) * scaled_den(q, k - 1),
{
    lemma_pow0(2);
    lemma_pow1(2);
    if k >= 1 {
        lemma_pow_adds(2, (k - 1) as nat, 1);
        let w = pow(2, (k - 1) as nat);
        lemma_pow_positive(2, (k - 1) as nat);
        lemma_scaled_num_unshifted(p, k - 1);
        lemma_scaled_num_unshifted(p, k);
        assert(scaled_den(q, k) == q * (w * 2));
        assert(scaled_den(q, k - 1) == q * w);
        assert(p * (q * (w * 2)) == 2 * p * (q * w)) by (nonlinear_arith);
    } else {
        lemma_pow_adds(2, (-k) as nat, 1);
        let w = pow(2, (-k) as nat);
        lemma_pow_positive(2, (-k) as nat);
        assert(scaled_num(p, k - 1) == p * (w * 2));
        assert(scaled_num(p, k) == p * w);
        lemma_scaled_den_unshifted(q, k);
        lemma_scaled_den_unshifted(q, k - 1);
        assert(p * (w * 2) * q == 2 * (p * w) * q) by (nonlinear_arith);
    }
}

/// A ratio within a quarter unit of a significand at its own exponent rounds
/// to that significand.
pub proof fn lemma_rounds_to(kind: FloatKind, p: nat, q: nat, k: int, sig: nat)
    requires
        p > 0,
        q > 0,
        k >= min_exp(kind),
        0 < sig < pow(2, mant_bits(kind) + 1),
        4 * scaled_num(p, k) > (4 * sig - 1) * scaled_den(q, k),
        4 * scaled_num(p, k) < (4 * sig + 1) * scaled_den(q, k),
        k == min_exp(kind) || scaled_num(p, k) >= pow(2, mant_bits(kind)) * scaled_den(q, k),
    ensures
        ulp_exp(kind, p, q) == k,
        rounded_at(p, q, k, RoundingKind::NearestTiesEven, false) == sig,
{
    let a = scaled_num(p, k);
    let b = scaled_den(q, k);
    let c = pow(2, mant_bits(kind) + 1);
    lemma_pow_adds(2, mant_bits(kind), 1);
    lemma_pow1(2);
    let u = pow(2, mant_bits(kind));
    lemma_pow_positive(2, pos_part(k));
    lemma_pow_positive(2, neg_part(k));
    let w = pow(2, pos_part(k));
    assert(b > 0) by (nonlinear_arith)
        requires
            b == q * w,
            q > 0,
            w > 0,
    ;
    assert(a < c * b) by (nonlinear_arith)
        requires
            4 * a < (4 * sig + 1) * b,
            sig + 1 <= c,
            b > 0,
    ;
    assert(fits_at(kind, p, q, k));
    if k > min_exp(kind) {
        lemma_scaled_double(p, q, k);
        let a1 = scaled_num(p, k - 1);
        let b1 = scaled_den(q, k - 1);
        assert(a1 >= c * b1) by (nonlinear_arith)
            requires
                a1 * b == 2 * a * b1,
                a >= u * b,
                c == u * 2,
                b > 0,
        ;
    }
    lemma_ulp_exp_unique(kind, p, q, k);
    lemma_fundamental_div_mod(a as int, b as int);
    let quot = a / b;
    let rem = a % b;
    if a >= sig * b {
        assert(a - sig * b < b) by (nonlinear_arith)
            requires
                4 * a < (4 * sig + 1) * b,
                b > 0,
        ;
        lemma_fundamental_div_mod_converse(a as int, b as int, sig as int, a - sig * b);
        assert(2 * rem < b) by (nonlinear_arith)
            requires
                rem == a - sig * b,
                4 * a < (4 * sig + 1) * b,
        ;
    } else {
        assert(0 <= a - (sig - 1) * b < b) by (nonlinear_arith)
            requires
                a < sig * b,
                4 * a > (4 * sig - 1) * b,
                b > 0,
        ;
        lemma_fundamental_div_mod_converse(a as int, b as int, sig - 1, a - (sig - 1) * b);
        assert(2 * rem > b) by (nonlinear_arith)
            requires
                rem == a - (sig - 1) * b,
                4 * a > (4 * sig - 1) * b,
        ;
    }
}

/// Exactly half the smallest subnormal, `p / q == 2^(min_exp - 1)`, rounds
/// to zero under nearest-even: the tie goes to the even significand zero.
pub proof fn lemma_half_min_subnormal_is_zero(kind: FloatKind, p: nat, q: nat, negative: bool)
    requires
        p > 0,
        q == 2 * p * pow(2, neg_part(min_exp(kind))),
    ensures
        ratio_bits(kind, p, q, RoundingKind::NearestTiesEven, negative) == 0,
{
    let k = min_exp(kind);
    lemma_pow_positive(2, neg_part(k));
    let w = pow(2, neg_part(k));
    let a = scaled_num(p, k);
    lemma_scaled_den_unshifted(q, k);
    let b = scaled_den(q, k);
    assert(a == p * w);
    assert(b == q);
    assert(2 * p * w == 2 * (p * w)) by (nonlinear_arith);
    assert(b == 2 * a);
    assert(a > 0) by (nonlinear_arith)
        requires
            a == p * w,
            p > 0,
            w > 0,
    ;
    lemma_pow_positive(2, mant_bits(kind) + 1);
    let c = pow(2, mant_bits(kind) + 1);
    assert(a < c * b) by (nonlinear_arith)
        requires
            b == 2 * a,
            a > 0,
            c >= 1,
    ;
    assert(is_ulp_exp(kind, p, q, k));
    lemma_ulp_exp_unique(kind, p, q, k);
    lemma_fundamental_div_mod_converse(a as int, b as int, 0, a as int);
    assert(rounded_at(p, q, k, RoundingKind::NearestTiesEven, negative) == 0);
    assert((k - min_exp(kind)) * pow(2, mant_bits(kind)) == 0);
}

/// The bits of a positive integer below `2^(M + 1)`, which every format
/// holds exactly: no rounding mode changes it.
pub fn encode_exact(kind: FloatKind, v: u64, mode: RoundingKind, negative: bool) -> (r: u64)
    requires
        0 < v < pow(2, mant_bits(kind) + 1),
    ensures
        r == ratio_bits(kind, v as nat, 1, mode, negative),
        r <= inf_bits(kind),
{
    let unit = kind.mantissa_unit();
    let emin = kind.min_exponent();
    let mut sig = v;
    let mut k: i64 = 0;
    proof {
        lemma_pow0(2);
    }
    while sig < unit
        invariant
            unit == pow(2, mant_bits(kind)),
            2 * unit == pow(2, mant_bits(kind) + 1),
            unit <= 0x10_0000_0000_0000,
            0 < sig < 2 * unit,
            -64 <= k <= 0,
            sig == v * pow(2, neg_part(k as int)),
            pow(2, neg_part(k as int)) <= sig,
        decreases 64 + k,
    {
        proof {
            lemma_pow_adds(2, neg_part(k as int), 1);
            lemma_pow1(2);
            assert(neg_part(k - 1) == neg_part(k as int) + 1);
            let w = pow(2, neg_part(k as int));
            assert(v * (w * 2) == 2 * (v * w)) by (nonlinear_arith);
            lemma2_to64();
            lemma_pow2(64);
            if k <= -53 {
                lemma_pow_increases(2, 53, neg_part(k as int));
                lemma2_to64_rest();
                lemma_pow2(53);
            }
        }
        sig = sig * 2;
        k = k - 1;
    }
    proof {
        lemma_scaled_den_unshifted(1, k as int);
        lemma_pow_positive(2, neg_part(k as int));
        assert(scaled_num(v as nat, k as int) == sig);
        assert(fits_at(kind, v as nat, 1, k as int));
        lemma_scaled_double(v as nat, 1, k as int);
        lemma_scaled_den_unshifted(1, k - 1);
        let x = scaled_num(v as nat, k - 1);
        assert(x == 2 * sig) by (nonlinear_arith)
            requires
                x * scaled_den(1, k as int) == 2 * scaled_num(v as nat, k as int) * scaled_den(1, k - 1),
                scaled_den(1, k as int) == 1,
                scaled_den(1, k - 1) == 1,
                scaled_num(v as nat, k as int) == sig,
        ;
        assert(!fits_at(kind, v as nat, 1, k - 1));
        assert(k >= min_exp(kind));
        lemma_ulp_exp_unique(kind, v as nat, 1, k as int);
        lemma_fundamental_div_mod_converse(sig as int, 1, sig as int, 0);
        assert(rounded_at(v as nat, 1, k as int, mode, negative) == sig);
    }
    let e = (k - emin) as u64;
    proof {
        assert(e * unit <= 1100 * unit) by (nonlinear_arith)
            requires
                e <= 1100,
        ;
    }
    let bits = e * unit + sig;
    if bits >= kind.infinity_bits() {
        kind.infinity_bits()
    } else {
        bits
    }
}

/// Powers grow with the base.
pub proof fn lemma_pow_base_mono(r: nat, n: nat)
    requires
        r >= 2,
    ensures
        pow(2, n) <= pow(r as int, n),
    decreases n,
{
    reveal(pow);
    if n > 0 {
        lemma_pow_base_mono(r, (n - 1) as nat);
        lemma_pow_positive(2, (n - 1) as nat);
        let a = pow(2, (n - 1) as nat);
        let b = pow(r as int, (n - 1) as nat);
        assert(2 * a <= r * b) by (nonlinear_arith)
            requires
                a <= b,
                r >= 2,
                a > 0,
        ;
    }
}

} // verus!
