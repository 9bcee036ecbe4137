//! Arbitrary-precision non-negative token amounts.
//!
//! On-chain amounts can exceed any machine integer, so an amount is kept
//! as its string of base-10 digits, most significant first. Splitting an
//! amount at a token's declared decimal scale (integer part and
//! fractional part) is then a split of the digit string, proved equal to
//! division and remainder by the corresponding power of ten.

use vstd::arithmetic::div_mod::{
    lemma_fundamental_div_mod_converse_div, lemma_fundamental_div_mod_converse_mod,
    lemma_small_mod,
};
use vstd::prelude::*;

verus! {

/// Numeric value of a big-endian string of base-10 digits.
pub open spec fn digits_value(s: Seq<u8>) -> nat
    decreases s.len(),
{
    if s.len() == 0 {
        0
    } else {
        digits_value(s.drop_last()) * 10 + s.last() as nat
    }
}

/// Ten to the `n`-th power.
pub open spec fn pow10(n: nat) -> nat
    decreases n,
{
    if n == 0 {
        1
    } else {
        10 * pow10((n - 1) as nat)
    }
}

/// Every element of the string is a base-10 digit.
pub open spec fn all_digits(s: Seq<u8>) -> bool {
    forall|i: int| 0 <= i < s.len() ==> s[i] < 10
}

/// A canonical digit string has no leading zero; zero is the empty string.
pub open spec fn canonical_digits(s: Seq<u8>) -> bool {
    all_digits(s) && (s.len() > 0 ==> s[0] != 0)
}

/// A non-negative integer of arbitrary precision, as base-10 digits,
/// most significant first.
#[derive(Debug, PartialEq, Eq)]
pub struct Amount {
    pub digits: Vec<u8>,
}

impl Clone for Amount {
    /// A clone carries the same digits, hence the same value.
    fn clone(&self) -> (r: Self)
        ensures
            r.digits@ == self.digits@,
            r@ == self@,
    {
        let n = self.digits.len();
        let digits = sub_digits(&self.digits, 0, n);
        proof {
            assert(self.digits@.subrange(0, n as int) =~= self.digits@);
        }
        Amount { digits }
    }
}

impl View for Amount {
    type V = nat;

    open spec fn view(&self) -> nat {
        digits_value(self.digits@)
    }
}

pub proof fn lemma_pow10_pos(n: nat)
    ensures
        pow10(n) >= 1,
    decreases n,
{
    if n > 0 {
        lemma_pow10_pos((n - 1) as nat);
    }
}

pub proof fn lemma_pow10_increases(m: nat, n: nat)
    requires
        m <= n,
    ensures
        pow10(m) <= pow10(n),
    decreases n,
{
    if m < n {
        lemma_pow10_increases(m, (n - 1) as nat);
        lemma_pow10_pos((n - 1) as nat);
    }
}

/// A string of `n` digits is worth less than ten to the `n`.
pub proof fn lemma_digits_value_bound(s: Seq<u8>)
    requires
        all_digits(s),
    ensures
        digits_value(s) < pow10(s.len()),
    decreases s.len(),
{
    if s.len() > 0 {
        assert(all_digits(s.drop_last()));
        lemma_digits_value_bound(s.drop_last());
        assert(s.last() < 10);
    }
}

/// Prepending a digit adds it at the highest place.
pub proof fn lemma_digits_value_cons(d: u8, s: Seq<u8>)
    ensures
        digits_value(seq![d] + s) == d * pow10(s.len()) + digits_value(s),
    decreases s.len(),
{
    if s.len() == 0 {
        assert(seq![d] + s =~= seq![d]);
        assert((seq![d]).drop_last() =~= Seq::<u8>::empty());
        assert(digits_value(Seq::<u8>::empty()) == 0);
        assert(digits_value(seq![d]) == digits_value((seq![d]).drop_last()) * 10 + (
        seq![d]).last() as nat);
        assert(digits_value(seq![d]) == d as nat);
        assert(pow10(s.len()) == 1);
    } else {
        let t = seq![d] + s;
        assert(t.len() == s.len() + 1);
        assert(t.drop_last() =~= seq![d] + s.drop_last());
        assert(t.last() == s.last());
        lemma_digits_value_cons(d, s.drop_last());
        let p = pow10((s.len() - 1) as nat);
        let x = digits_value(s.drop_last());
        assert(digits_value(t) == digits_value(t.drop_last()) * 10 + t.last() as nat);
        assert(digits_value(t.drop_last()) == d * p + x);
        assert((d * p + x) * 10 == d * (10 * p) + x * 10) by (nonlinear_arith);
        assert(pow10(s.len()) == 10 * p);
        assert(digits_value(s) == x * 10 + s.last() as nat);
        assert(digits_value(t) == d * pow10(s.len()) + digits_value(s));
    }
}

/// Cutting a digit string at position `k` splits its value into a
/// quotient of `pow10(len - k)` and a remainder below it.
pub proof fn lemma_digits_value_split(s: Seq<u8>, k: int)
    requires
        all_digits(s),
        0 <= k <= s.len(),
    ensures
        digits_value(s) == digits_value(s.take(k)) * pow10((s.len() - k) as nat) + digits_value(
            s.skip(k),
        ),
        digits_value(s.skip(k)) < pow10((s.len() - k) as nat),
    decreases s.len() - k,
{
    assert forall|i: int| 0 <= i < s.skip(k).len() implies s.skip(k)[i] < 10 by {
        assert(s.skip(k)[i] == s[i + k]);
    }
    lemma_digits_value_bound(s.skip(k));
    if k == s.len() {
        assert(s.take(k) =~= s);
        assert(s.skip(k) =~= Seq::<u8>::empty());
        assert(digits_value(s.skip(k)) == 0);
        assert(pow10((s.len() - k) as nat) == 1);
    } else {
        let s1 = s.drop_last();
        assert(all_digits(s1));
        lemma_digits_value_split(s1, k);
        assert(s.take(k) =~= s1.take(k));
        assert(s.skip(k).drop_last() =~= s1.skip(k));
        assert(s.skip(k).len() > 0);
        assert(s.skip(k).last() == s.last());
        let a = digits_value(s.take(k));
        let b = digits_value(s1.skip(k));
        let p = pow10((s1.len() - k) as nat);
        assert(digits_value(s) == digits_value(s1) * 10 + s.last() as nat);
        assert(digits_value(s1) == a * p + b);
        assert((a * p + b) * 10 == a * (10 * p) + b * 10) by (nonlinear_arith);
        assert(pow10((s.len() - k) as nat) == 10 * p);
        assert(digits_value(s.skip(k)) == digits_value(s.skip(k).drop_last()) * 10 + s.skip(
            k,
        ).last() as nat);
        assert(digits_value(s.skip(k)) == b * 10 + s.last() as nat);
        assert(digits_value(s) == a * pow10((s.len() - k) as nat) + digits_value(s.skip(k)));
    }
}

/// Leading zeros do not change a digit string's value.
pub proof fn lemma_digits_value_leading_zeros(s: Seq<u8>, z: int)
    requires
        0 <= z <= s.len(),
        forall|i: int| 0 <= i < z ==> s[i] == 0,
    ensures
        digits_value(s.skip(z)) == digits_value(s),
    decreases z,
{
    if z > 0 {
        assert(s =~= seq![s[0]] + s.skip(1));
        lemma_digits_value_cons(s[0], s.skip(1));
        assert(s[0] == 0);
        assert(digits_value(s) == digits_value(s.skip(1)));
        assert(forall|i: int| 0 <= i < z - 1 ==> s.skip(1)[i] == 0);
        lemma_digits_value_leading_zeros(s.skip(1), z - 1);
        assert(s.skip(1).skip(z - 1) =~= s.skip(z));
    } else {
        assert(s.skip(0) =~= s);
    }
}

/// The digits of `v` between `from` and `to`, as a fresh vector.
fn sub_digits(v: &Vec<u8>, from: usize, to: usize) -> (r: Vec<u8>)
    requires
        from <= to <= v@.len(),
    ensures
        r@ == v@.subrange(from as int, to as int),
{
    let mut r: Vec<u8> = Vec::new();
    let mut i: usize = from;
    while i < to
        invariant
            from <= i <= to <= v@.len(),
            r@ == v@.subrange(from as int, i as int),
        decreases to - i,
    {
        r.push(v[i]);
        proof {
            assert(v@.subrange(from as int, (i + 1) as int) =~= v@.subrange(
                from as int,
                i as int,
            ).push(v@[i as int]));
        }
        i += 1;
    }
    r
}

impl Amount {
    /// Canonical digit strings are the type's only valid contents.
    pub open spec fn wf(&self) -> bool {
        canonical_digits(self.digits@)
    }

    /// An amount from an explicit digit string; rejected unless the
    /// string is canonical (digits below ten, no leading zero).
    pub fn new(digits: Vec<u8>) -> (r: Option<Amount>)
        ensures
            r is Some <==> canonical_digits(digits@),
            r matches Some(a) ==> a.digits@ == digits@ && a.wf() && a@ == digits_value(digits@),
    {
        if digits.len() > 0 && digits[0] == 0 {
            return None;
        }
        let mut i: usize = 0;
        while i < digits.len()
            invariant
                i <= digits@.len(),
                forall|j: int| 0 <= j < i ==> digits@[j] < 10,
            decreases digits@.len() - i,
        {
            if digits[i] >= 10 {
                return None;
            }
            i += 1;
        }
        Some(Amount { digits })
    }

    /// The zero amount.
    pub fn zero() -> (r: Amount)
        ensures
            r.wf(),
            r@ == 0,
    {
        Amount { digits: Vec::new() }
    }

    /// An amount from a machine integer.
    pub fn from_u128(x: u128) -> (r: Amount)
        ensures
            r.wf(),
            r@ == x,
    {
        let mut digits: Vec<u8> = Vec::new();
        let mut n: u128 = x;
        proof {
            assert(digits_value(digits@) == 0);
            assert(pow10(0) == 1);
        }
        while n > 0
            invariant
                all_digits(digits@),
                digits_value(digits@) + n * pow10(digits@.len()) == x,
                n > 0 || digits@.len() == 0 || digits@[0] != 0,
            decreases n,
        {
            let ghost old_digits = digits@;
            let ghost old_n = n;
            let d: u8 = (n % 10) as u8;
            digits.insert(0, d);
            n = n / 10;
            proof {
                assert(digits@ =~= seq![d] + old_digits);
                lemma_digits_value_cons(d, old_digits);
                let len = old_digits.len();
                assert(old_n == 10 * (old_n / 10) + old_n % 10);
                assert((10 * (old_n / 10) + old_n % 10) * pow10(len) == (old_n / 10) * (10 * pow10(
                    len,
                )) + (old_n % 10) * pow10(len)) by (nonlinear_arith);
                assert(pow10(len + 1) == 10 * pow10(len));
                if n == 0 {
                    assert(old_n < 10) by {
                        if old_n >= 10 {
                            vstd::arithmetic::div_mod::lemma_div_non_zero(old_n as int, 10);
                        }
                    };
                    lemma_small_mod(old_n as nat, 10);
                    assert(d == old_n);
                }
            }
        }
        proof {
            assert(digits_value(digits@) == x);
        }
        Amount { digits }
    }

    /// Split at a decimal scale: the integer part is the amount divided
    /// by ten to the `scale`, the fractional part is the remainder.
    pub fn split(&self, scale: u8) -> (r: (Amount, Amount))
        requires
            self.wf(),
        ensures
            r.0.wf(),
            r.1.wf(),
            r.0@ == self@ / pow10(scale as nat),
            r.1@ == self@ % pow10(scale as nat),
    {
        let n = self.digits.len();
        let d = scale as usize;
        proof {
            lemma_pow10_pos(scale as nat);
        }
        if n <= d {
            // the whole value sits below the scale
            let frac = sub_digits(&self.digits, 0, n);
            proof {
                assert(self.digits@.subrange(0, n as int) =~= self.digits@);
                lemma_digits_value_bound(self.digits@);
                lemma_pow10_increases(n as nat, scale as nat);
                lemma_small_mod(self@, pow10(scale as nat));
                assert(self@ / pow10(scale as nat) == 0) by {
                    lemma_fundamental_div_mod_converse_div(
                        self@ as int,
                        pow10(scale as nat) as int,
                        0,
                        self@ as int,
                    );
                };
            }
            (Amount { digits: Vec::new() }, Amount { digits: frac })
        } else {
            let k = n - d;
            let int_digits = sub_digits(&self.digits, 0, k);
            // drop the leading zeros the cut may have left on the fraction
            let mut j = k;
            while j < n && self.digits[j] == 0
                invariant
                    k <= j <= n == self.digits@.len(),
                    forall|t: int| k <= t < j ==> self.digits@[t] == 0,
                decreases n - j,
            {
                j += 1;
            }
            let frac_digits = sub_digits(&self.digits, j, n);
            proof {
                let s = self.digits@;
                let ki = k as int;
                assert(s.take(ki) =~= s.subrange(0, ki));
                assert(s.skip(ki) =~= s.subrange(ki, n as int));
                lemma_digits_value_split(s, ki);
                let m = pow10((s.len() - ki) as nat);
                assert((s.len() - ki) as nat == scale as nat);
                let q = digits_value(s.take(ki));
                let f = digits_value(s.skip(ki));
                lemma_fundamental_div_mod_converse_div(self@ as int, m as int, q as int, f as int);
                lemma_fundamental_div_mod_converse_mod(self@ as int, m as int, q as int, f as int);
                // the stripped fraction keeps the remainder's value
                assert(s.subrange(j as int, n as int) =~= s.skip(ki).skip(j - ki));
                lemma_digits_value_leading_zeros(s.skip(ki), j - ki);
                // both parts are canonical
                assert(canonical_digits(int_digits@));
                assert(canonical_digits(frac_digits@));
            }
            (Amount { digits: int_digits }, Amount { digits: frac_digits })
        }
    }
}

} // verus!
