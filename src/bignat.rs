//! Arbitrary-precision natural numbers stored as little-endian 32-bit limbs.
use vstd::arithmetic::power::*;
use vstd::arithmetic::power2::*;
use vstd::prelude::*;

verus! {

/// The radix of one limb.
pub open spec fn limb_base() -> int {
    0x1_0000_0000
}

/// The value of a little-endian limb sequence.
pub open spec fn limbs_value(s: Seq<u32>) -> nat
    decreases s.len(),
{
    if s.len() == 0 {
        0
    } else {
        (limbs_value(s.drop_last()) + s.last() * pow(limb_base(), (s.len() - 1) as nat)) as nat
    }
}

pub proof fn lemma_limbs_value_push(s: Seq<u32>, x: u32)
    ensures
        limbs_value(s.push(x)) == limbs_value(s) + x * pow(limb_base(), s.len()),
{
    let t = s.push(x);
    assert(t.drop_last() =~= s);
    assert(t.last() == x);
    assert(t.len() - 1 == s.len());
    lemma_pow_positive(limb_base(), s.len());
    let p = pow(limb_base(), s.len());
    assert(x * p >= 0) by (nonlinear_arith)
        requires
            p > 0,
    ;
}

pub proof fn lemma_limbs_value_take(s: Seq<u32>, i: int)
    requires
        0 <= i < s.len(),
    ensures
        limbs_value(s.take(i + 1)) == limbs_value(s.take(i)) + s[i] * pow(limb_base(), i as nat),
{
    assert(s.take(i + 1) =~= s.take(i).push(s[i]));
    lemma_limbs_value_push(s.take(i), s[i]);
}

pub proof fn lemma_limbs_value_bound(s: Seq<u32>)
    ensures
        limbs_value(s) < pow(limb_base(), s.len()),
    decreases s.len(),
{
    reveal(pow);
    if s.len() > 0 {
        let n = (s.len() - 1) as nat;
        lemma_limbs_value_bound(s.drop_last());
        let p = pow(limb_base(), n);
        assert(pow(limb_base(), s.len()) == limb_base() * p);
        let v = limbs_value(s.drop_last());
        let l = s.last() as int;
        assert(v + l * p < limb_base() * p) by (nonlinear_arith)
            requires
                v < p,
                0 <= l < limb_base(),
        ;
    }
}

pub proof fn lemma_limbs_value_zero(s: Seq<u32>)
    ensures
        limbs_value(s) == 0 <==> (forall|i: int| 0 <= i < s.len() ==> s[i] == 0),
    decreases s.len(),
{
    if s.len() > 0 {
        let n = (s.len() - 1) as nat;
        lemma_limbs_value_zero(s.drop_last());
        lemma_pow_positive(limb_base(), n);
        let p = pow(limb_base(), n);
        let l = s.last() as int;
        assert(l * p >= 0) by (nonlinear_arith)
            requires
                p > 0,
                l >= 0,
        ;
        if l != 0 {
            assert(l * p > 0) by (nonlinear_arith)
                requires
                    p > 0,
                    l > 0,
            ;
        } else {
            assert(l * p == 0) by (nonlinear_arith)
                requires
                    l == 0,
            ;
        }
        assert(limbs_value(s) == limbs_value(s.drop_last()) + l * p);
        if forall|i: int| 0 <= i < s.len() ==> s[i] == 0 {
            assert forall|i: int| 0 <= i < s.drop_last().len() implies s.drop_last()[i] == 0 by {
                assert(s[i] == 0);
            }
        }
        if limbs_value(s) == 0 {
            assert forall|i: int| 0 <= i < s.len() implies s[i] == 0 by {
                if i < n {
                    assert(s.drop_last()[i] == 0);
                }
            }
        }
    }
}

/// A natural number of unbounded size.
pub struct BigNat {
    pub limbs: Vec<u32>,
}

impl View for BigNat {
    type V = nat;

    open spec fn view(&self) -> nat {
        limbs_value(self.limbs@)
    }
}

impl BigNat {
    /// A number of one limb.
    pub fn from_u32(x: u32) -> (r: BigNat)
        ensures
            r@ == x,
            r.limbs@.len() == 1,
    {
        let mut limbs: Vec<u32> = Vec::new();
        limbs.push(x);
        proof {
            lemma_limbs_value_push(Seq::<u32>::empty(), x);
            assert(limbs@ =~= Seq::<u32>::empty().push(x));
            reveal(pow);
        }
        BigNat { limbs }
    }

    /// A number from a 64-bit integer.
    pub fn from_u64(x: u64) -> (r: BigNat)
        ensures
            r@ == x,
            r.limbs@.len() <= 3,
    {
        let hi = (x / 0x1_0000_0000) as u32;
        let lo = x % 0x1_0000_0000;
        let mid = (lo / 0x1_0000) as u32;
        let low = (lo % 0x1_0000) as u32;
        let mut r = BigNat::from_u32(hi);
        r.mul_small_add(0x1_0000, mid);
        r.mul_small_add(0x1_0000, low);
        r
    }

    /// Replaces the value `v` by `v * m + a`.
    pub fn mul_small_add(&mut self, m: u32, a: u32)
        ensures
            final(self)@ == old(self)@ * m + a,
            final(self).limbs@.len() <= old(self).limbs@.len() + 1,
    {
        let n = self.limbs.len();
        let ghost s = self.limbs@;
        let mut carry: u64 = a as u64;
        let mut i: usize = 0;
        proof {
            assert(self.limbs@.take(0) =~= Seq::<u32>::empty());
            assert(s.take(0) =~= Seq::<u32>::empty());
            lemma_pow0(limb_base());
            assert(limbs_value(Seq::<u32>::empty()) == 0);
            assert(limbs_value(s.take(0)) * m == 0);
            assert(carry * pow(limb_base(), 0) == a);
        }
        while i < n
            invariant
                n == s.len(),
                self.limbs@.len() == n,
                0 <= i <= n,
                carry < limb_base(),
                forall|j: int| i <= j < n ==> self.limbs@[j] == s[j],
                limbs_value(self.limbs@.take(i as int)) + carry * pow(limb_base(), i as nat)
                    == limbs_value(s.take(i as int)) * m + a,
            decreases n - i,
        {
            let x = self.limbs[i];
            proof {
                assert((x as int) * (m as int) <= 0xFFFF_FFFE_0000_0001) by (nonlinear_arith)
                    requires
                        x <= 0xFFFF_FFFF,
                        m <= 0xFFFF_FFFF,
                ;
            }
            let t: u64 = (x as u64) * (m as u64) + carry;
            let lo = (t % 0x1_0000_0000) as u32;
            let hi = t / 0x1_0000_0000;
            let ghost old_limbs = self.limbs@;
            self.limbs.set(i, lo);
            proof {
                let p = pow(limb_base(), i as nat);
                lemma_limbs_value_take(self.limbs@, i as int);
                lemma_limbs_value_take(s, i as int);
                assert(self.limbs@.take(i as int) =~= old_limbs.take(i as int));
                reveal(pow);
                assert(pow(limb_base(), (i + 1) as nat) == limb_base() * p);
                assert(t == lo + hi * limb_base());
                assert(lo * p + hi * (limb_base() * p) == (x * m + carry) * p) by (nonlinear_arith)
                    requires
                        t == lo + hi * limb_base(),
                        t == x * m + carry,
                ;
                assert(limbs_value(s.take(i as int)) * m + s[i as int] * p * m
                    == (limbs_value(s.take(i as int)) + s[i as int] * p) * m) by (nonlinear_arith);
                assert(x * m * p == s[i as int] * p * m) by (nonlinear_arith)
                    requires
                        x == s[i as int],
                ;
                assert(carry * p + x * m * p == (x * m + carry) * p) by (nonlinear_arith);
            }
            carry = hi;
            i = i + 1;
        }
        proof {
            assert(self.limbs@.take(n as int) =~= self.limbs@);
            assert(s.take(n as int) =~= s);
        }
        if carry > 0 {
            let ghost before = self.limbs@;
            self.limbs.push(carry as u32);
            proof {
                lemma_limbs_value_push(before, carry as u32);
            }
        }
    }

    /// A copy of this number.
    pub fn copy(&self) -> (r: BigNat)
        ensures
            r@ == self@,
            r.limbs@ == self.limbs@,
    {
        let limbs = self.limbs.clone();
        proof {
            assert(limbs@ =~= self.limbs@);
        }
        BigNat { limbs }
    }

    /// A copy of this number with at least `n` limbs.
    pub fn padded(&self, n: usize) -> (r: BigNat)
        ensures
            r@ == self@,
            r.limbs@.len() == if n > self.limbs@.len() { n as int } else { self.limbs@.len() as int },
    {
        let mut limbs = self.limbs.clone();
        proof {
            assert(limbs@ =~= self.limbs@);
        }
        while limbs.len() < n
            invariant
                limbs_value(limbs@) == self@,
                self.limbs@.len() <= limbs@.len(),
                n > self.limbs@.len() ==> limbs@.len() <= n,
                n <= self.limbs@.len() ==> limbs@.len() == self.limbs@.len(),
            decreases n - limbs.len(),
        {
            let ghost before = limbs@;
            limbs.push(0);
            proof {
                lemma_limbs_value_push(before, 0);
            }
        }
        BigNat { limbs }
    }

    /// True when the value is zero.
    pub fn is_zero(&self) -> (r: bool)
        ensures
            r == (self@ == 0),
    {
        proof {
            lemma_limbs_value_zero(self.limbs@);
        }
        let mut i: usize = 0;
        while i < self.limbs.len()
            invariant
                0 <= i <= self.limbs@.len(),
                forall|j: int| 0 <= j < i ==> self.limbs@[j] == 0,
            decreases self.limbs@.len() - i,
        {
            if self.limbs[i] != 0 {
                proof {
                    let k = i as int;
                    lemma_limbs_value_zero(self.limbs@);
                    assert(self.limbs@[k] != 0);
                    assert(!(forall|j: int| 0 <= j < self.limbs@.len() ==> self.limbs@[j] == 0));
                    assert(limbs_value(self.limbs@) != 0);
                }
                return false;
            }
            i = i + 1;
        }
        true
    }

    /// Limb-wise difference `a - b` of two numbers with as many limbs, with the final borrow.
    pub fn sub_borrow(a: &BigNat, b: &BigNat) -> (r: (BigNat, bool))
        requires
            a.limbs@.len() == b.limbs@.len(),
        ensures
            r.1 == (a@ < b@),
            !r.1 ==> r.0@ == a@ - b@,
    {
        let n = a.limbs.len();
        let mut out: Vec<u32> = Vec::new();
        let mut borrow: u32 = 0;
        let mut i: usize = 0;
        proof {
            assert(out@ =~= a.limbs@.take(0));
            assert(out@ =~= b.limbs@.take(0));
            lemma_pow0(limb_base());
        }
        while i < n
            invariant
                n == a.limbs@.len(),
                n == b.limbs@.len(),
                0 <= i <= n,
                out@.len() == i,
                borrow <= 1,
                limbs_value(out@) - borrow * pow(limb_base(), i as nat)
                    == limbs_value(a.limbs@.take(i as int)) - limbs_value(b.limbs@.take(i as int)),
            decreases n - i,
        {
            let x = a.limbs[i];
            let y = b.limbs[i];
            let d: u32;
            let nb: u32;
            if (x as u64) >= (y as u64) + (borrow as u64) {
                d = x - y - borrow;
                nb = 0;
            } else {
                d = ((x as u64) + 0x1_0000_0000 - (y as u64) - (borrow as u64)) as u32;
                nb = 1;
            }
            let ghost before = out@;
            out.push(d);
            proof {
                let p = pow(limb_base(), i as nat);
                lemma_limbs_value_push(before, d);
                lemma_limbs_value_take(a.limbs@, i as int);
                lemma_limbs_value_take(b.limbs@, i as int);
                reveal(pow);
                assert(pow(limb_base(), (i + 1) as nat) == limb_base() * p);
                assert(d - nb * limb_base() == x - y - borrow);
                assert(d * p - nb * (limb_base() * p) == (x - y - borrow) * p) by (nonlinear_arith)
                    requires
                        d - nb * limb_base() == x - y - borrow,
                ;
                assert((x - y - borrow) * p == x * p - y * p - borrow * p) by (nonlinear_arith);
            }
            borrow = nb;
            i = i + 1;
        }
        proof {
            assert(a.limbs@.take(n as int) =~= a.limbs@);
            assert(b.limbs@.take(n as int) =~= b.limbs@);
            lemma_limbs_value_bound(out@);
            let p = pow(limb_base(), n as nat);
            if borrow == 0 {
                assert(borrow * p == 0);
            } else {
                assert(borrow * p == p);
            }
        }
        (BigNat { limbs: out }, borrow == 1)
    }

    /// Three-way comparison: -1, 0 or 1 as `a` is below, equal to or above `b`.
    pub fn compare(a: &BigNat, b: &BigNat) -> (r: i8)
        ensures
            r == -1 <==> a@ < b@,
            r == 0 <==> a@ == b@,
            r == 1 <==> a@ > b@,
            -1 <= r <= 1,
    {
        let n = if a.limbs.len() > b.limbs.len() { a.limbs.len() } else { b.limbs.len() };
        let pa = a.padded(n);
        let pb = b.padded(n);
        let (d, borrow) = BigNat::sub_borrow(&pa, &pb);
        if borrow {
            -1
        } else if d.is_zero() {
            0
        } else {
            1
        }
    }

    /// The difference `a - b`.
    pub fn sub(a: &BigNat, b: &BigNat) -> (r: BigNat)
        requires
            b@ <= a@,
        ensures
            r@ == a@ - b@,
    {
        let n = if a.limbs.len() > b.limbs.len() { a.limbs.len() } else { b.limbs.len() };
        let pa = a.padded(n);
        let pb = b.padded(n);
        let (d, _) = BigNat::sub_borrow(&pa, &pb);
        d
    }

    /// Multiplies the value by `base` raised to `n`.
    pub fn mul_pow(&mut self, base: u32, n: u64)
        ensures
            final(self)@ == old(self)@ * pow(base as int, n as nat),
            final(self).limbs@.len() <= old(self).limbs@.len() + n,
    {
        let ghost v0 = self@;
        let ghost l0 = self.limbs@.len();
        let mut i: u64 = 0;
        proof {
            lemma_pow0(base as int);
        }
        while i < n
            invariant
                0 <= i <= n,
                self@ == v0 * pow(base as int, i as nat),
                self.limbs@.len() <= l0 + i,
            decreases n - i,
        {
            let ghost before = self@;
            self.mul_small_add(base, 0);
            proof {
                lemma_pow_adds(base as int, i as nat, 1);
                lemma_pow1(base as int);
                assert(v0 * pow(base as int, i as nat) * base == v0 * (pow(base as int, i as nat)
                    * base)) by (nonlinear_arith);
            }
            i = i + 1;
        }
    }

    /// Multiplies the value by two raised to `n`.
    pub fn shl(&mut self, n: u64)
        ensures
            final(self)@ == old(self)@ * pow(2, n as nat),
            final(self).limbs@.len() <= old(self).limbs@.len() + n + 1,
    {
        let ghost v0 = self@;
        let ghost l0 = self.limbs@.len();
        let mut i: u64 = 0;
        proof {
            lemma_pow0(2);
            lemma2_to64();
            lemma_pow2(31);
        }
        while n - i >= 31
            invariant
                0 <= i <= n,
                self@ == v0 * pow(2, i as nat),
                self.limbs@.len() <= l0 + i,
                pow(2, 31) == 0x8000_0000,
            decreases n - i,
        {
            self.mul_small_add(0x8000_0000, 0);
            proof {
                lemma_pow_adds(2, i as nat, 31);
                assert(v0 * pow(2, i as nat) * pow(2, 31) == v0 * (pow(2, i as nat) * pow(2,
                    31))) by (nonlinear_arith);
            }
            i = i + 31;
        }
        let rest = n - i;
        let mut f: u32 = 1;
        let mut j: u64 = 0;
        while j < rest
            invariant
                rest < 31,
                0 <= j <= rest,
                f == pow(2, j as nat),
            decreases rest - j,
        {
            proof {
                lemma_pow_increases(2, j as nat, 30);
                lemma_pow2(30);
                lemma2_to64();
                lemma_pow_adds(2, j as nat, 1);
                lemma_pow1(2);
            }
            f = f * 2;
            j = j + 1;
        }
        self.mul_small_add(f, 0);
        proof {
            lemma_pow_adds(2, i as nat, rest as nat);
            assert(v0 * pow(2, i as nat) * f == v0 * (pow(2, i as nat) * f)) by (nonlinear_arith);
        }
    }
}

} // verus!
