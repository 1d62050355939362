//! Canonical digit sequences of naturals, and writing integers in any radix.
use crate::parse::{digits_value, valid_digits};
use vstd::arithmetic::power::*;
use vstd::prelude::*;

verus! {

/// Big-endian digits of `v` in radix `r`, without leading zeros (empty for zero).
pub open spec fn radix_digits(v: nat, r: nat) -> Seq<u8>
    decreases v,
    via radix_digits_decreases
{
    if v == 0 || r < 2 || r > 36 {
        Seq::empty()
    } else {
        radix_digits(v / r, r).push((v % r) as u8)
    }
}

#[via_fn]
proof fn radix_digits_decreases(v: nat, r: nat) {
    if !(v == 0 || r < 2 || r > 36) {
        vstd::arithmetic::div_mod::lemma_div_decreases(v as int, r as int);
    }
}

/// ASCII character of a digit value: `0`-`9`, then `A`-`Z`.
pub open spec fn digit_char(d: u8) -> u8 {
    if d < 10 {
        (0x30 + d) as u8
    } else {
        (0x41 + d - 10) as u8
    }
}

/// ASCII characters of a digit sequence.
pub open spec fn digit_chars(ds: Seq<u8>) -> Seq<u8> {
    ds.map_values(|d: u8| digit_char(d))
}

/// Characters of `v` written in radix `r`: `0` for zero.
pub open spec fn integer_chars(v: nat, r: nat) -> Seq<u8> {
    if v == 0 {
        seq![0x30u8]
    } else {
        digit_chars(radix_digits(v, r))
    }
}

pub fn char_of(d: u8) -> (r: u8)
    requires
        d < 36,
    ensures
        r == digit_char(d),
{
    if d < 10 {
        0x30 + d
    } else {
        0x41 + d - 10
    }
}

/// Digits without a leading zero are the canonical digits of their value.
pub proof fn lemma_canonical_digits(ds: Seq<u8>, r: nat)
    requires
        2 <= r <= 36,
        valid_digits(ds, r),
        ds.len() > 0 ==> ds[0] != 0,
    ensures
        radix_digits(digits_value(ds, r), r) == ds,
    decreases ds.len(),
{
    if ds.len() > 0 {
        let init = ds.drop_last();
        let v = digits_value(init, r);
        let d = ds.last() as nat;
        assert(valid_digits(init, r)) by {
            assert forall|i: int| 0 <= i < init.len() implies init[i] < r by {
                assert(init[i] == ds[i]);
            }
        }
        if init.len() > 0 {
            assert(init[0] == ds[0]);
        }
        lemma_canonical_digits(init, r);
        assert(d < r) by {
            assert(ds[ds.len() - 1] < r);
        }
        let w = v * r + d;
        vstd::arithmetic::div_mod::lemma_fundamental_div_mod_converse(w as int, r as int, v as int, d as int);
        if init.len() == 0 {
            assert(d != 0) by {
                assert(ds[0] == ds.last());
            }
            assert(v == 0);
        } else {
            lemma_digits_value_positive(init, r);
        }
        assert(w > 0) by (nonlinear_arith)
            requires
                w == v * r + d,
                v > 0 || d > 0,
                r >= 2,
        ;
        assert(radix_digits(w, r) == radix_digits(w / r, r).push((w % r) as u8));
        assert(ds =~= init.push(ds.last()));
    }
}

/// A sequence whose first digit is non-zero has a positive value.
pub proof fn lemma_digits_value_positive(ds: Seq<u8>, r: nat)
    requires
        r >= 2,
        ds.len() > 0,
        ds[0] != 0,
    ensures
        digits_value(ds, r) > 0,
    decreases ds.len(),
{
    if ds.len() > 1 {
        assert(ds.drop_last()[0] == ds[0]);
        lemma_digits_value_positive(ds.drop_last(), r);
        let v = digits_value(ds.drop_last(), r);
        assert(v * r > 0) by (nonlinear_arith)
            requires
                v > 0,
                r >= 2,
        ;
    } else {
        assert(ds.drop_last().len() == 0);
    }
}

/// Canonical digits are valid, start with a non-zero digit, and carry the value.
pub proof fn lemma_radix_digits(v: nat, r: nat)
    requires
        2 <= r <= 36,
    ensures
        valid_digits(radix_digits(v, r), r),
        radix_digits(v, r).len() > 0 ==> radix_digits(v, r)[0] != 0,
        digits_value(radix_digits(v, r), r) == v,
        v > 0 <==> radix_digits(v, r).len() > 0,
    decreases v,
{
    if v > 0 {
        vstd::arithmetic::div_mod::lemma_div_decreases(v as int, r as int);
        vstd::arithmetic::div_mod::lemma_fundamental_div_mod(v as int, r as int);
        lemma_radix_digits(v / r, r);
        assert(v % r < r);
        assert(v == (v / r) * r + v % r);
        let init = radix_digits(v / r, r);
        let ds = radix_digits(v, r);
        assert(ds == init.push((v % r) as u8));
        assert(ds.drop_last() =~= init);
        assert forall|i: int| 0 <= i < ds.len() implies ds[i] < r by {
            if i < init.len() {
                assert(ds[i] == init[i]);
            }
        }
        if init.len() == 0 {
            assert(v / r == 0);
            assert(v % r == v);
        } else {
            assert(ds[0] == init[0]);
        }
    }
}

/// Writes `v` in `radix` with the characters `0`-`9`, `A`-`Z`.
pub fn write_integer(v: u128, radix: u32) -> (r: Vec<u8>)
    requires
        2 <= radix <= 36,
    ensures
        r@ == integer_chars(v as nat, radix as nat),
{
    if v == 0 {
        let mut out: Vec<u8> = Vec::new();
        out.push(0x30);
        proof {
            assert(out@ =~= seq![0x30u8]);
        }
        return out;
    }
    let mut out: Vec<u8> = Vec::new();
    let mut x = v;
    let r = radix as u128;
    proof {
        assert(digit_chars(radix_digits(0, radix as nat)) + out@ =~= Seq::<u8>::empty());
    }
    while x > 0
        invariant
            2 <= r <= 36,
            r == radix,
            digit_chars(radix_digits(v as nat, r as nat)) == digit_chars(radix_digits(x as nat, r as nat)) + out@,
        decreases x,
    {
        let d = (x % r) as u8;
        let c = char_of(d);
        let ghost before = out@;
        out.insert(0, c);
        proof {
            let init = radix_digits((x / r) as nat, r as nat);
            assert(radix_digits(x as nat, r as nat) == init.push(d));
            assert(digit_chars(init.push(d)) =~= digit_chars(init).push(c));
            assert(out@ =~= seq![c] + before);
            assert(digit_chars(init).push(c) + before =~= digit_chars(init) + out@);
        }
        x = x / r;
    }
    proof {
        assert(digit_chars(radix_digits(0, r as nat)) =~= Seq::<u8>::empty());
        assert(Seq::<u8>::empty() + out@ =~= out@);
    }
    out
}

/// The value of a concatenation.
pub proof fn lemma_digits_value_append(a: Seq<u8>, b: Seq<u8>, r: nat)
    ensures
        digits_value(a + b, r) == digits_value(a, r) * pow(r as int, b.len()) + digits_value(b, r),
    decreases b.len(),
{
    lemma_pow0(r as int);
    if b.len() == 0 {
        assert(a + b =~= a);
    } else {
        let b1 = b.drop_last();
        assert((a + b).drop_last() =~= a + b1);
        assert((a + b).last() == b.last());
        lemma_digits_value_append(a, b1, r);
        lemma_pow_adds(r as int, b1.len(), 1);
        lemma_pow1(r as int);
        let va = digits_value(a, r);
        let w = pow(r as int, b1.len());
        let vb = digits_value(b1, r);
        assert((va * w + vb) * r == va * (w * r) + vb * r) by (nonlinear_arith);
    }
}

/// A run of `m` top digits `r - 1` is worth `r^m - 1`; a run of zeros nothing.
pub proof fn lemma_digits_value_uniform(ds: Seq<u8>, r: nat, top: bool)
    requires
        2 <= r <= 36,
        forall|i: int| 0 <= i < ds.len() ==> ds[i] == if top {
            (r - 1) as u8
        } else {
            0u8
        },
    ensures
        digits_value(ds, r) == if top {
            pow(r as int, ds.len()) - 1
        } else {
            0
        },
    decreases ds.len(),
{
    lemma_pow0(r as int);
    if ds.len() > 0 {
        let d1 = ds.drop_last();
        assert forall|i: int| 0 <= i < d1.len() implies d1[i] == if top {
            (r - 1) as u8
        } else {
            0u8
        } by {
            assert(d1[i] == ds[i]);
        }
        lemma_digits_value_uniform(d1, r, top);
        assert(ds.last() == ds[ds.len() - 1]);
        lemma_pow_adds(r as int, d1.len(), 1);
        lemma_pow1(r as int);
        let w = pow(r as int, d1.len());
        let v1 = digits_value(d1, r);
        if top {
            assert(v1 * r + (r - 1) == w * r - 1) by (nonlinear_arith)
                requires
                    v1 == w - 1,
            ;
        } else {
            assert(v1 * r == 0) by (nonlinear_arith)
                requires
                    v1 == 0,
            ;
        }
    }
}

/// Digits of the successor: `ds` plus one, carried.
pub fn plus_one(ds: &Vec<u8>, r: u32) -> (out: Vec<u8>)
    requires
        2 <= r <= 36,
        valid_digits(ds@, r as nat),
        ds@.len() >= 1,
        ds@[0] != 0,
    ensures
        valid_digits(out@, r as nat),
        1 <= out@.len() <= ds@.len() + 1,
        out@[0] != 0,
        digits_value(out@, r as nat) == digits_value(ds@, r as nat) + 1,
{
    let n = ds.len();
    let top = (r - 1) as u8;
    let mut j = n;
    while j > 0 && ds[j - 1] == top
        invariant
            0 <= j <= n == ds@.len(),
            top == r - 1,
            forall|i: int| j <= i < n ==> ds@[i] == top,
        decreases j,
    {
        j = j - 1;
    }
    let mut out: Vec<u8> = Vec::new();
    if j == 0 {
        out.push(1);
    }
    let mut i: usize = 0;
    while i < n
        invariant
            0 <= i <= n == ds@.len(),
            j <= n,
            j == 0 ==> out@ =~= seq![1u8] + Seq::new(i as nat, |x: int| 0u8),
            j > 0 ==> out@ =~= Seq::new(
                i as nat,
                |x: int|
                    if x < j - 1 {
                        ds@[x]
                    } else if x == j - 1 {
                        (ds@[x] + 1) as u8
                    } else {
                        0u8
                    },
            ),
            j > 0 ==> ds@[j - 1] != top,
            valid_digits(ds@, r as nat),
            top == r - 1,
        decreases n - i,
    {
        let d: u8 = if j > 0 && i < j - 1 {
            ds[i]
        } else if j > 0 && i == j - 1 {
            proof {
                assert(ds@[i as int] < r);
            }
            ds[i] + 1
        } else {
            0
        };
        out.push(d);
        i = i + 1;
    }
    proof {
        let rr = r as nat;
        let zeros = Seq::new((n - j) as nat, |x: int| 0u8);
        lemma_digits_value_uniform(zeros, rr, false);
        let nines = ds@.subrange(j as int, n as int);
        lemma_digits_value_uniform(nines, rr, true);
        let m = (n - j) as nat;
        if j == 0 {
            assert(ds@ =~= nines);
            assert(out@ =~= seq![1u8] + zeros);
            lemma_digits_value_append(seq![1u8], zeros, rr);
            assert(seq![1u8].drop_last() =~= Seq::<u8>::empty());
            assert(digits_value(Seq::<u8>::empty(), rr) == 0);
            assert(0 * rr == 0);
            assert(seq![1u8].last() == 1u8);
            assert(digits_value(seq![1u8], rr) == 1);
            assert(1 * pow(r as int, m) + 0 == pow(r as int, m));
        } else {
            let head = ds@.take(j - 1);
            let d = ds@[j - 1];
            assert(ds@ =~= head.push(d) + nines);
            assert(out@ =~= head.push((d + 1) as u8) + zeros);
            lemma_digits_value_append(head.push(d), nines, rr);
            lemma_digits_value_append(head.push((d + 1) as u8), zeros, rr);
            assert(head.push(d).drop_last() =~= head);
            assert(head.push((d + 1) as u8).drop_last() =~= head);
            let x = digits_value(head.push(d), rr);
            assert(digits_value(head.push((d + 1) as u8), rr) == x + 1);
            let w = pow(r as int, m);
            assert((x + 1) * w == x * w + w) by (nonlinear_arith);
            assert forall|k: int| 0 <= k < out@.len() implies out@[k] < r by {
                if k < j - 1 {
                    assert(out@[k] == ds@[k]);
                }
            }
            if j > 1 {
                assert(out@[0] == ds@[0]);
            }
        }
    }
    out
}

} // verus!
