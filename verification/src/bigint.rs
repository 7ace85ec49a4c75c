//! The [`BigInt`] type: a sign flag and little-endian base-10^9 digits.

use std::cmp::Ordering;
use std::ops::{Add, Mul, Neg, Sub};
use vstd::prelude::*;
use vstd::std_specs::cmp::{PartialEqSpec, PartialOrdSpec};
use crate::text::{
    all_decimal, chunk_ok, chunk_start, chunk_value, chunked_value, chunks_ok, decimal_digits,
    decimal_string, decimal_value, digit_char, has_minus, is_decimal, is_white,
    lemma_decimal_concat, lemma_pow10_pos, padded_digits, parse_ok, parsed, pow10, radix_digit,
    radix_value, significant, strip_zeros, trim_end, trim_start, unsigned_part,
};
use crate::digits::{
    BASE, canonical, digit_at, digit_order, digits_bounded, idx, lemma_bounded_subrange,
    lemma_canonical_unique, lemma_digit_order, lemma_len_le_from_value, lemma_low_value_full,
    lemma_low_value_step, lemma_low_value_zero, lemma_no_leading_zero_from_lower,
    lemma_pow_base_add, lemma_pow_base_mono, lemma_pow_base_pos, lemma_value_drop_zero,
    lemma_value_lower, lemma_value_push, lemma_value_split, lemma_value_update, lemma_value_upper,
    lemma_value_zero_iff_empty, lemma_zero_times, low_value, pow_base, push_zeros, top_order,
    value_of,
};

verus! {

/// An arbitrary-precision signed integer.
///
/// Stored as little-endian base-10^9 digits with a sign flag. A well-formed
/// value has every digit below 10^9, no zero most significant digit, and zero
/// is always the empty digit sequence with a positive sign.
#[derive(Debug)]
pub struct BigInt {
    /// Digits in base 10^9, least significant first.
    pub(crate) digits: Vec<u64>,
    /// `true` if the number is negative.
    pub(crate) negative: bool,
}

impl BigInt {
    /// The digit sequence.
    pub open(crate) spec fn limbs(&self) -> Seq<u64> {
        self.digits@
    }

    /// The absolute value, read off the digits.
    pub open(crate) spec fn magnitude(&self) -> nat {
        value_of(self.digits@)
    }

    /// The integer this value stands for.
    pub open(crate) spec fn view(&self) -> int {
        if self.negative {
            -value_of(self.digits@)
        } else {
            value_of(self.digits@) as int
        }
    }

    /// Well-formedness: canonical digits, and zero is never negative.
    pub open(crate) spec fn wf(&self) -> bool {
        &&& canonical(self.digits@)
        &&& (self.digits@.len() == 0 ==> !self.negative)
    }

    /// Number of base-10^9 digits.
    pub open(crate) spec fn size(&self) -> nat {
        self.digits@.len()
    }

    /// Creates a new `BigInt` representing zero.
    pub fn zero() -> (r: Self)
        ensures
            r.wf(),
            r@ == 0,
    {
        let r = BigInt { digits: Vec::new(), negative: false };
        proof {
            assert(value_of(r.digits@) == 0);
        }
        r
    }

    /// Creates a `BigInt` from a `u64`.
    pub fn from_u64(n: u64) -> (r: Self)
        ensures
            r.wf(),
            r@ == n as int,
    {
        if n == 0 {
            return Self::zero();
        }
        let mut digits: Vec<u64> = Vec::new();
        let mut n = n;
        let ghost n0 = n as nat;
        proof {
            assert(value_of(digits@) == 0);
            assert(pow_base(0) == 1);
            assert(pow_base(0) * n == n) by (nonlinear_arith)
                requires
                    pow_base(0) == 1,
            ;
        }
        while n > 0
            invariant
                value_of(digits@) + pow_base(digits@.len()) * n == n0,
                digits_bounded(digits@),
                digits@.len() > 0 ==> n > 0 || digits@[digits@.len() - 1] != 0,
                n0 > 0,
            decreases n,
        {
            let d = n % BASE;
            let ghost old_digits = digits@;
            let ghost p = pow_base(old_digits.len());
            digits.push(d);
            proof {
                lemma_value_push(old_digits, d);
                let q = (n / BASE) as nat;
                assert(n == 1_000_000_000 * q + d);
                assert(pow_base(digits@.len()) == 1_000_000_000 * p);
                assert(p * n == d * p + (1_000_000_000 * p) * q) by (nonlinear_arith)
                    requires
                        n == 1_000_000_000 * q + d,
                ;
            }
            n = n / BASE;
        }
        proof {
            assert(pow_base(digits@.len()) * n == 0) by (nonlinear_arith)
                requires
                    n == 0,
            ;
        }
        BigInt { digits, negative: false }
    }

    /// Creates a `BigInt` from an `i64`.
    pub fn from_i64(n: i64) -> (r: Self)
        ensures
            r.wf(),
            r@ == n as int,
    {
        if n == 0 {
            return Self::zero();
        }
        let negative = n < 0;
        let magnitude: u64 = if n < 0 {
            ((-(n + 1)) as u64) + 1
        } else {
            n as u64
        };
        let mut r = Self::from_u64(magnitude);
        r.negative = negative;
        r
    }

    /// Creates a nonnegative `BigInt` from canonical digits.
    pub(crate) fn from_limbs(digits: Vec<u64>) -> (r: Self)
        requires
            canonical(digits@),
        ensures
            r.wf(),
            r@ == value_of(digits@),
    {
        BigInt { digits, negative: false }
    }

    /// Returns `true` if this number is zero.
    pub fn is_zero(&self) -> (r: bool)
        requires
            self.wf(),
        ensures
            r == (self@ == 0),
    {
        proof {
            lemma_value_zero_iff_empty(self.digits@);
        }
        self.digits.len() == 0
    }

    /// Returns `true` if this number is negative.
    pub fn is_negative(&self) -> (r: bool)
        requires
            self.wf(),
        ensures
            r == (self@ < 0),
    {
        proof {
            lemma_value_zero_iff_empty(self.digits@);
        }
        self.negative && !self.is_zero()
    }

    /// Returns a copy of this value.
    pub(crate) fn copy(&self) -> (r: Self)
        ensures
            r.digits@ == self.digits@,
            r.negative == self.negative,
    {
        let digits = self.digits.clone();
        proof {
            assert(digits@ =~= self.digits@);
        }
        BigInt { digits, negative: self.negative }
    }

    /// Returns the absolute value.
    pub fn abs(&self) -> (r: Self)
        requires
            self.wf(),
        ensures
            r.wf(),
            r@ == if self@ < 0 { -self@ } else { self@ },
    {
        let mut r = self.copy();
        r.negative = false;
        r
    }

    /// Removes leading zero digits.
    pub(crate) fn normalize(&mut self)
        requires
            digits_bounded(old(self).digits@),
        ensures
            final(self).wf(),
            final(self).magnitude() == old(self).magnitude(),
            final(self).negative == (old(self).negative && old(self).magnitude() != 0),
    {
        while self.digits.len() > 0 && self.digits[self.digits.len() - 1] == 0
            invariant
                digits_bounded(self.digits@),
                value_of(self.digits@) == old(self).magnitude(),
                self.negative == old(self).negative,
            decreases self.digits@.len(),
        {
            proof {
                lemma_value_drop_zero(self.digits@);
            }
            self.digits.pop();
        }
        proof {
            lemma_value_zero_iff_empty(self.digits@);
        }
        if self.digits.len() == 0 {
            self.negative = false;
        }
    }

    /// Adds `n` to the magnitude, keeping the sign.
    fn add_u64(&self, n: u64) -> (r: Self)
        requires
            self.wf(),
            n < BASE,
        ensures
            r.wf(),
            r.magnitude() == self.magnitude() + n,
            r.negative == self.negative,
    {
        if n == 0 {
            return self.copy();
        }
        let mut result = self.copy();
        let mut carry = n;
        let mut i: usize = 0;
        let ghost total = self.magnitude() + n;
        proof {
            assert(pow_base(0) == 1);
            assert(pow_base(0) * n == n) by (nonlinear_arith)
                requires
                    pow_base(0) == 1,
            ;
        }
        while i < result.digits.len() && carry > 0
            invariant
                result.digits@.len() == self.digits@.len(),
                i <= result.digits@.len(),
                digits_bounded(result.digits@),
                carry <= n,
                carry < BASE,
                value_of(result.digits@) + pow_base(i as nat) * carry == total,
                forall|j: int| i <= j < result.digits@.len() ==> result.digits@[j] == self.digits@[j],
                result.negative == self.negative,
            decreases result.digits@.len() - i,
        {
            let sum = result.digits[i] + carry;
            let ghost old_digits = result.digits@;
            result.digits.set(i, sum % BASE);
            proof {
                lemma_value_update(old_digits, i as int, sum % BASE);
                let p = pow_base(i as nat);
                assert(pow_base((i + 1) as nat) == 1_000_000_000 * p);
                let q = sum / BASE;
                assert(sum == 1_000_000_000 * q + sum % BASE);
                assert(p * sum == (sum % BASE) * p + (1_000_000_000 * p) * q) by (nonlinear_arith)
                    requires
                        sum == 1_000_000_000 * q + sum % BASE,
                ;
                assert(p * sum == old_digits[i as int] * p + p * carry) by (nonlinear_arith)
                    requires
                        sum == old_digits[i as int] + carry,
                ;
            }
            carry = sum / BASE;
            i = i + 1;
        }
        if carry > 0 {
            proof {
                assert(i == result.digits@.len());
                lemma_value_push(result.digits@, carry);
                let p = pow_base(i as nat);
                assert(p * carry == carry * p) by (nonlinear_arith);
            }
            result.digits.push(carry);
        } else {
            proof {
                assert(pow_base(i as nat) * carry == 0) by (nonlinear_arith)
                    requires
                        carry == 0,
                ;
            }
        }
        proof {
            let s = result.digits@;
            assert(s.len() > 0);
            if s.len() == self.digits@.len() {
                lemma_value_lower(self.digits@);
                lemma_no_leading_zero_from_lower(s);
            } else {
                assert(s[s.len() - 1] == carry);
            }
        }
        result
    }

    /// Multiplies the magnitude by `n`, keeping the sign of a nonzero result.
    ///
    /// `n` may go up to `u64::MAX / BASE`, so that no limb product plus carry
    /// leaves `u64`.
    fn mul_u64(&self, n: u64) -> (r: Self)
        requires
            self.wf(),
            n <= 18_446_744_073,
        ensures
            r.wf(),
            r@ == self@ * n,
    {
        if n == 0 || self.is_zero() {
            proof {
                assert(self@ * n == 0) by (nonlinear_arith)
                    requires
                        n == 0 || self@ == 0,
                ;
            }
            return Self::zero();
        }
        let mut result = BigInt { digits: Vec::new(), negative: self.negative };
        let mut carry: u64 = 0;
        let mut i: usize = 0;
        let ghost s = self.digits@;
        proof {
            assert(s.take(0) =~= Seq::<u64>::empty());
            assert(value_of(Seq::<u64>::empty()) == 0);
        }
        while i < self.digits.len()
            invariant
                s == self.digits@,
                digits_bounded(s),
                1 <= n <= 18_446_744_073,
                i <= s.len(),
                result.digits@.len() == i,
                digits_bounded(result.digits@),
                carry <= n,
                value_of(result.digits@) + pow_base(i as nat) * carry == value_of(s.take(i as int))
                    * n,
                result.negative == self.negative,
            decreases s.len() - i,
        {
            let d = self.digits[i];
            proof {
                assert(d * n + carry <= 1_000_000_000 * n) by (nonlinear_arith)
                    requires
                        d < 1_000_000_000,
                        carry <= n,
                ;
                assert(1_000_000_000 * n <= 1_000_000_000 * 18_446_744_073) by (nonlinear_arith)
                    requires
                        n <= 18_446_744_073,
                ;
            }
            let prod = d * n + carry;
            let ghost old_digits = result.digits@;
            result.digits.push(prod % BASE);
            proof {
                lemma_value_push(old_digits, prod % BASE);
                assert(s.take(i + 1) =~= s.take(i as int).push(d));
                lemma_value_push(s.take(i as int), d);
                let p = pow_base(i as nat);
                let q = prod / BASE;
                assert(pow_base((i + 1) as nat) == 1_000_000_000 * p);
                assert(prod == 1_000_000_000 * q + prod % BASE);
                assert(p * prod == (prod % BASE) * p + (1_000_000_000 * p) * q) by (nonlinear_arith)
                    requires
                        prod == 1_000_000_000 * q + prod % BASE,
                ;
                let v = value_of(s.take(i as int));
                assert((v + d * p) * n == v * n + p * (d * n)) by (nonlinear_arith);
                assert(p * prod == p * (d * n) + p * carry) by (nonlinear_arith)
                    requires
                        prod == d * n + carry,
                ;
                assert(q <= n) by (nonlinear_arith)
                    requires
                        prod == d * n + carry,
                        carry <= n,
                        d < 1_000_000_000,
                        prod == 1_000_000_000 * q + prod % BASE,
                        prod % BASE >= 0,
                ;
            }
            carry = prod / BASE;
            i = i + 1;
        }
        proof {
            assert(s.take(i as int) =~= s);
            lemma_value_lower(s);
            assert(value_of(s) * n >= value_of(s)) by (nonlinear_arith)
                requires
                    n >= 1,
            ;
        }
        let ghost total = value_of(s) * n;
        while carry > 0
            invariant
                result.digits@.len() >= 1,
                digits_bounded(result.digits@),
                value_of(result.digits@) + pow_base(result.digits@.len()) * carry == total,
                total >= pow_base((result.digits@.len() - 1) as nat),
                result.negative == self.negative,
            decreases carry,
        {
            let ghost old_digits = result.digits@;
            result.digits.push(carry % BASE);
            proof {
                lemma_value_push(old_digits, carry % BASE);
                let p = pow_base(old_digits.len());
                let q = carry / BASE;
                assert(pow_base(result.digits@.len()) == 1_000_000_000 * p);
                assert(carry == 1_000_000_000 * q + carry % BASE);
                assert(p * carry == (carry % BASE) * p + (1_000_000_000 * p) * q) by (nonlinear_arith)
                    requires
                        carry == 1_000_000_000 * q + carry % BASE,
                ;
                assert(p * carry >= p) by (nonlinear_arith)
                    requires
                        carry >= 1,
                ;
            }
            carry = carry / BASE;
        }
        proof {
            assert(pow_base(result.digits@.len()) * carry == 0) by (nonlinear_arith)
                requires
                    carry == 0,
            ;
            lemma_no_leading_zero_from_lower(result.digits@);
            if self.negative {
                assert(self@ * n == -(value_of(s) * n)) by (nonlinear_arith)
                    requires
                        self@ == -value_of(s),
                ;
            }
        }
        result
    }

    /// Compares the absolute values.
    pub(crate) fn abs_cmp(&self, other: &Self) -> (r: Ordering)
        ensures
            r == digit_order(self.digits@, other.digits@),
    {
        if self.digits.len() != other.digits.len() {
            if self.digits.len() < other.digits.len() {
                return Ordering::Less;
            } else {
                return Ordering::Greater;
            }
        }
        let ghost a = self.digits@;
        let ghost b = other.digits@;
        let mut i = self.digits.len();
        while i > 0
            invariant
                a == self.digits@,
                b == other.digits@,
                i <= a.len(),
                a.len() == b.len(),
                top_order(a, b, a.len()) == top_order(a, b, idx(i)),
            decreases i,
        {
            i = i - 1;
            if self.digits[i] != other.digits[i] {
                if self.digits[i] < other.digits[i] {
                    return Ordering::Less;
                } else {
                    return Ordering::Greater;
                }
            }
        }
        Ordering::Equal
    }

    /// Subtracts `other` from `self` assuming `self >= other` (both positive).
    pub(crate) fn abs_sub(&self, other: &Self) -> (r: Self)
        requires
            canonical(self.digits@),
            canonical(other.digits@),
            self.magnitude() >= other.magnitude(),
        ensures
            r.wf(),
            r@ == self.magnitude() - other.magnitude(),
    {
        let mut result: Vec<u64> = Vec::new();
        let mut borrow: i64 = 0;
        let mut i: usize = 0;
        let ghost a = self.digits@;
        let ghost b = other.digits@;
        proof {
            lemma_len_le_from_value(b, a);
            lemma_low_value_zero(a);
            lemma_low_value_zero(b);
            assert(value_of(Seq::<u64>::empty()) == 0);
        }
        while i < self.digits.len()
            invariant
                a == self.digits@,
                b == other.digits@,
                b.len() <= a.len(),
                canonical(a),
                canonical(b),
                i <= a.len(),
                result@.len() == i,
                digits_bounded(result@),
                0 <= borrow <= 1,
                value_of(result@) + low_value(b, i as int) == low_value(a, i as int) + borrow
                    * pow_base(i as nat),
            decreases a.len() - i,
        {
            let da = self.digits[i] as i64;
            let db = if i < other.digits.len() {
                other.digits[i] as i64
            } else {
                0
            };
            let mut diff = da - db - borrow;
            let ghost old_borrow = borrow;
            if diff < 0 {
                diff += BASE as i64;
                borrow = 1;
            } else {
                borrow = 0;
            }
            let ghost old_result = result@;
            result.push(diff as u64);
            proof {
                lemma_value_push(old_result, diff as u64);
                lemma_low_value_step(a, i as int);
                lemma_low_value_step(b, i as int);
                assert(digit_at(a, i as int) == da);
                assert(digit_at(b, i as int) == db);
                let p = pow_base(i as nat);
                assert(pow_base((i + 1) as nat) == 1_000_000_000 * p);
                assert(diff - 1_000_000_000 * borrow == da - db - old_borrow);
                assert(diff * p + db * p + old_borrow * p == da * p + borrow * (1_000_000_000 * p))
                    by (nonlinear_arith)
                    requires
                        diff - 1_000_000_000 * borrow == da - db - old_borrow,
                ;
            }
            i = i + 1;
        }
        proof {
            lemma_low_value_full(a, i as int);
            lemma_low_value_full(b, i as int);
            lemma_value_upper(result@);
            if borrow == 1 {
                assert(borrow * pow_base(i as nat) == pow_base(i as nat)) by (nonlinear_arith)
                    requires
                        borrow == 1,
                ;
            }
            assert(borrow * pow_base(i as nat) == 0) by (nonlinear_arith)
                requires
                    borrow == 0,
            ;
        }
        let mut r = BigInt { digits: result, negative: false };
        r.normalize();
        r
    }

    /// For a well-formed value the sign flag says whether it is negative, and
    /// the magnitude is its absolute value.
    pub(crate) proof fn lemma_wf_sign(&self)
        requires
            self.wf(),
        ensures
            self.negative == (self@ < 0),
            self.magnitude() == if self@ < 0 { -self@ } else { self@ },
            (self@ == 0) == (self.digits@.len() == 0),
    {
        lemma_value_zero_iff_empty(self.digits@);
    }

    /// Schoolbook (long) multiplication. Used as a baseline for Karatsuba testing.
    pub fn schoolbook_mul(&self, other: &BigInt) -> (r: BigInt)
        requires
            self.wf(),
            other.wf(),
        ensures
            r.wf(),
            r@ == self@ * other@,
    {
        if self.is_zero() || other.is_zero() {
            proof {
                assert(self@ * other@ == 0) by (nonlinear_arith)
                    requires
                        self@ == 0 || other@ == 0,
                ;
            }
            return Self::zero();
        }
        let ghost sa = self.digits@;
        let ghost sb = other.digits@;
        let ghost vb = value_of(sb);
        let alen = self.digits.len();
        let blen = other.digits.len();
        let mut result: Vec<u64> = Vec::new();
        push_zeros(&mut result, alen);
        push_zeros(&mut result, blen);
        let rlen = result.len();
        proof {
            assert(value_of(Seq::<u64>::empty()) == 0);
            assert(sa.take(0) =~= Seq::<u64>::empty());
            assert(0 * vb == 0) by (nonlinear_arith);
            lemma_value_upper(sb);
        }
        let mut i: usize = 0;
        while i < alen
            invariant
                sa == self.digits@,
                sb == other.digits@,
                vb == value_of(sb),
                vb < pow_base(blen as nat),
                canonical(sa),
                canonical(sb),
                alen == sa.len(),
                blen == sb.len(),
                rlen == alen + blen,
                i <= alen,
                result@.len() == rlen,
                digits_bounded(result@),
                value_of(result@) == value_of(sa.take(i as int)) * vb,
            decreases alen - i,
        {
            let a = self.digits[i];
            let mut carry: u64 = 0;
            let mut j: usize = 0;
            let ghost ti = value_of(sa.take(i as int));
            let ghost t0 = value_of(result@);
            let ghost pi = pow_base(i as nat);
            proof {
                assert(sb.take(0) =~= Seq::<u64>::empty());
                assert(value_of(Seq::<u64>::empty()) == 0);
                assert(value_of(sb.take(0)) == 0);
                assert(i + 0 == i);
                lemma_pow_base_add(i as nat, 0);
                assert(pow_base(0) == 1);
                assert(pi * 1 == pi) by (nonlinear_arith);
                assert(a * 0 * pi == 0) by (nonlinear_arith);
                assert(carry * pi == 0) by (nonlinear_arith)
                    requires
                        carry == 0,
                ;
            }
            while j < blen
                invariant
                    sa == self.digits@,
                    sb == other.digits@,
                    digits_bounded(sb),
                    blen == sb.len(),
                    i < alen,
                    rlen == alen + blen,
                    j <= blen,
                    result@.len() == rlen,
                    digits_bounded(result@),
                    a < BASE,
                    carry < BASE,
                    pi == pow_base(i as nat),
                    value_of(result@) + carry * pow_base((i + j) as nat) == t0 + a * value_of(
                        sb.take(j as int),
                    ) * pi,
                decreases blen - j,
            {
                let b = other.digits[j];
                let cur = result[i + j];
                proof {
                    assert(a * b <= (1_000_000_000 - 1) * (1_000_000_000 - 1)) by (nonlinear_arith)
                        requires
                            a < 1_000_000_000,
                            b < 1_000_000_000,
                    ;
                }
                let prod = cur + a * b + carry;
                let ghost old_res = result@;
                let k = i + j;
                result.set(k, prod % BASE);
                proof {
                    lemma_value_update(old_res, k as int, prod % BASE);
                    let p = pow_base(k as nat);
                    let q = prod / BASE;
                    assert(pow_base((k + 1) as nat) == 1_000_000_000 * p);
                    assert(prod == 1_000_000_000 * q + prod % BASE);
                    assert(sb.take(j + 1) =~= sb.take(j as int).push(b));
                    lemma_value_push(sb.take(j as int), b);
                    lemma_pow_base_add(i as nat, j as nat);
                    let pj = pow_base(j as nat);
                    let vj = value_of(sb.take(j as int));
                    assert(p == pi * pj);
                    assert(prod * p == (prod % BASE) * p + q * (1_000_000_000 * p))
                        by (nonlinear_arith)
                        requires
                            prod == 1_000_000_000 * q + prod % BASE,
                    ;
                    assert(prod * p == cur * p + (a * b) * p + carry * p) by (nonlinear_arith)
                        requires
                            prod == cur + a * b + carry,
                    ;
                    assert(a * (vj + b * pj) * pi == a * vj * pi + (a * b) * p) by (nonlinear_arith)
                        requires
                            p == pi * pj,
                    ;
                    assert(q < 1_000_000_000) by (nonlinear_arith)
                        requires
                            prod == 1_000_000_000 * q + prod % BASE,
                            prod % BASE >= 0,
                            prod <= (1_000_000_000 - 1) + (1_000_000_000 - 1) * (1_000_000_000 - 1)
                                + (1_000_000_000 - 1),
                    ;
                }
                carry = prod / BASE;
                j = j + 1;
            }
            let ghost target = value_of(sa.take(i + 1)) * vb;
            proof {
                assert(sb.take(blen as int) =~= sb);
                assert(sa.take(i + 1) =~= sa.take(i as int).push(a));
                lemma_value_push(sa.take(i as int), a);
                assert((ti + a * pi) * vb == ti * vb + a * vb * pi) by (nonlinear_arith);
                assert(t0 == ti * vb);
                assert(a * value_of(sb.take(blen as int)) * pi == a * vb * pi);
                lemma_bounded_subrange(sa, 0, i + 1);
                lemma_value_upper(sa.take(i + 1));
                lemma_pow_base_add((i + 1) as nat, blen as nat);
                let x = value_of(sa.take(i + 1));
                let px = pow_base((i + 1) as nat);
                let pb = pow_base(blen as nat);
                assert(x * vb < px * pb) by (nonlinear_arith)
                    requires
                        x < px,
                        vb < pb,
                        0 <= x,
                        0 <= vb,
                ;
                lemma_pow_base_mono((i + 1 + blen) as nat, rlen as nat);
            }
            let mut k: usize = i + blen;
            while carry > 0
                invariant
                    result@.len() == rlen,
                    digits_bounded(result@),
                    carry < BASE,
                    k <= rlen,
                    value_of(result@) + carry * pow_base(k as nat) == target,
                    target < pow_base(rlen as nat),
                decreases rlen - k,
            {
                proof {
                    if k >= rlen {
                        lemma_pow_base_mono(rlen as nat, k as nat);
                        assert(carry * pow_base(k as nat) >= pow_base(k as nat)) by (nonlinear_arith)
                            requires
                                carry >= 1,
                        ;
                    }
                }
                let sum = result[k] + carry;
                let ghost old_res = result@;
                result.set(k, sum % BASE);
                proof {
                    lemma_value_update(old_res, k as int, sum % BASE);
                    let p = pow_base(k as nat);
                    let q = sum / BASE;
                    assert(pow_base((k + 1) as nat) == 1_000_000_000 * p);
                    assert(sum == 1_000_000_000 * q + sum % BASE);
                    assert(sum * p == (sum % BASE) * p + q * (1_000_000_000 * p))
                        by (nonlinear_arith)
                        requires
                            sum == 1_000_000_000 * q + sum % BASE,
                    ;
                    assert(sum * p == old_res[k as int] * p + carry * p) by (nonlinear_arith)
                        requires
                            sum == old_res[k as int] + carry,
                    ;
                }
                carry = sum / BASE;
                k = k + 1;
            }
            proof {
                assert(carry * pow_base(k as nat) == 0) by (nonlinear_arith)
                    requires
                        carry == 0,
                ;
            }
            i = i + 1;
        }
        let mut r = BigInt { digits: result, negative: self.negative != other.negative };
        r.normalize();
        proof {
            assert(sa.take(alen as int) =~= sa);
            self.lemma_wf_sign();
            other.lemma_wf_sign();
            let x = value_of(sa);
            assert(x * vb > 0) by (nonlinear_arith)
                requires
                    x > 0,
                    vb > 0,
            ;
            assert(self@ * other@ == if self.negative != other.negative {
                -(x * vb)
            } else {
                (x * vb) as int
            }) by (nonlinear_arith)
                requires
                    self@ == if self.negative { -x } else { x as int },
                    other@ == if other.negative { -vb } else { vb as int },
            ;
        }
        r
    }

    /// Whether `|self| < |other|`.
    pub(crate) fn abs_lt(&self, other: &Self) -> (r: bool)
        requires
            canonical(self.digits@),
            canonical(other.digits@),
        ensures
            r == (self.magnitude() < other.magnitude()),
    {
        proof {
            lemma_digit_order(self.digits@, other.digits@);
        }
        match self.abs_cmp(other) {
            Ordering::Less => true,
            _ => false,
        }
    }

    /// Whether `|self| <= |other|`.
    pub(crate) fn abs_le(&self, other: &Self) -> (r: bool)
        requires
            canonical(self.digits@),
            canonical(other.digits@),
        ensures
            r == (self.magnitude() <= other.magnitude()),
    {
        proof {
            lemma_digit_order(self.digits@, other.digits@);
        }
        match self.abs_cmp(other) {
            Ordering::Greater => false,
            _ => true,
        }
    }

    /// Divides `self` by `other`, returning `(quotient, remainder)`.
    ///
    /// The quotient's magnitude is `|self| / |other|` and the remainder's is
    /// `|self| % |other|`; the remainder takes the sign of `self`, and the
    /// quotient is negative when the signs differ (truncated division, so
    /// `self == quotient * other + remainder`).
    pub fn div_rem(&self, other: &BigInt) -> (res: (BigInt, BigInt))
        requires
            self.wf(),
            other.wf(),
            other@ != 0,
        ensures
            res.0.wf(),
            res.1.wf(),
            res.0@ == quotient_of(self@, other@),
            res.1@ == remainder_of(self@, other@),
    {
        proof {
            self.lemma_wf_sign();
            other.lemma_wf_sign();
        }
        if self.is_zero() {
            return (Self::zero(), Self::zero());
        }
        let a = self.abs();
        let b = other.abs();
        let ghost av = a.magnitude();
        let ghost bv = b.magnitude();
        proof {
            a.lemma_wf_sign();
            b.lemma_wf_sign();
        }
        if a.abs_lt(&b) {
            proof {
                vstd::arithmetic::div_mod::lemma_basic_div(av as int, bv as int);
                vstd::arithmetic::div_mod::lemma_small_mod(av, bv);
            }
            return (Self::zero(), self.copy());
        }
        let n = a.digits.len();
        let mut quotient: Vec<u64> = Vec::new();
        push_zeros(&mut quotient, n);
        let mut remainder = Self::zero();
        let mut i: usize = n;
        let ghost sa = a.digits@;
        proof {
            assert(sa.skip(n as int) =~= Seq::<u64>::empty());
            assert(quotient@.skip(n as int) =~= Seq::<u64>::empty());
            assert(value_of(Seq::<u64>::empty()) == 0);
            assert(bv * 0 == 0) by (nonlinear_arith);
        }
        while i > 0
            invariant
                sa == a.digits@,
                canonical(sa),
                a.wf(),
                b.wf(),
                bv == b.magnitude(),
                bv > 0,
                b@ == bv,
                n == sa.len(),
                i <= n,
                quotient@.len() == n,
                digits_bounded(quotient@),
                remainder.wf(),
                0 <= remainder@ < bv,
                value_of(sa.skip(i as int)) == bv * value_of(quotient@.skip(i as int)) + remainder@,
            decreases i,
        {
            i = i - 1;
            let d = a.digits[i];
            let shifted = remainder.mul_u64(BASE);
            let current = shifted.add_u64(d);
            let ghost cur = current@;
            proof {
                current.lemma_wf_sign();
                shifted.lemma_wf_sign();
                assert(sa.skip(i as int) =~= seq![d] + sa.skip(i + 1));
                assert(value_of(sa.skip(i as int)) == d + 1_000_000_000 * value_of(sa.skip(i + 1)))
                    by {
                    assert(sa.skip(i as int).drop_first() =~= sa.skip(i + 1));
                }
                assert(cur == remainder@ * 1_000_000_000 + d);
                assert(cur < 1_000_000_000 * bv) by (nonlinear_arith)
                    requires
                        cur == remainder@ * 1_000_000_000 + d,
                        remainder@ < bv,
                        d < 1_000_000_000,
                ;
            }
            let ghost t = cur / (bv as int);
            proof {
                vstd::arithmetic::div_mod::lemma_fundamental_div_mod(cur, bv as int);
                vstd::arithmetic::div_mod::lemma_div_pos_is_pos(cur, bv as int);
                vstd::arithmetic::div_mod::lemma_mod_bound(cur, bv as int);
                assert(t <= 1_000_000_000 - 1) by (nonlinear_arith)
                    requires
                        cur == bv * t + cur % (bv as int),
                        cur % (bv as int) >= 0,
                        cur < 1_000_000_000 * bv,
                        bv > 0,
                ;
            }
            let mut lo: u64 = 0;
            let mut hi: u64 = BASE - 1;
            let mut q: u64 = 0;
            while lo <= hi
                invariant
                    b.wf(),
                    b@ == bv,
                    bv > 0,
                    current.wf(),
                    current@ == cur,
                    cur >= 0,
                    0 <= t <= BASE - 1,
                    cur == bv * t + cur % (bv as int),
                    0 <= cur % (bv as int) < bv,
                    hi <= BASE - 1,
                    lo <= t + 1,
                    t <= hi || lo == t + 1,
                    lo <= hi + 1,
                    lo > 0 ==> q == lo - 1,
                    lo == 0 ==> q == 0,
                decreases hi + 1 - lo,
            {
                let mid = lo + (hi - lo) / 2;
                let product = b.mul_u64(mid);
                proof {
                    product.lemma_wf_sign();
                    assert(product@ == bv * mid);
                    assert(bv * mid >= 0) by (nonlinear_arith)
                        requires
                            bv > 0,
                    ;
                }
                if product.abs_le(&current) {
                    proof {
                        if mid > t {
                            assert(bv * mid > cur) by (nonlinear_arith)
                                requires
                                    mid >= t + 1,
                                    bv > 0,
                                    cur == bv * t + cur % (bv as int),
                                    cur % (bv as int) < bv,
                            ;
                        }
                    }
                    q = mid;
                    lo = mid + 1;
                } else {
                    proof {
                        if mid <= t {
                            assert(bv * mid <= bv * t) by (nonlinear_arith)
                                requires
                                    mid <= t,
                                    bv > 0,
                            ;
                        }
                        if mid == 0 {
                            assert(bv * mid == 0) by (nonlinear_arith)
                                requires
                                    mid == 0,
                            ;
                        }
                    }
                    hi = mid - 1;
                }
            }
            proof {
                assert(q == t);
            }
            let ghost old_q = quotient@;
            quotient.set(i, q);
            let qb = b.mul_u64(q);
            remainder = crate::arithmetic::sub(&current, &qb);
            proof {
                assert(quotient@.skip(i as int) =~= seq![q] + quotient@.skip(i + 1));
                assert(quotient@.skip(i + 1) =~= old_q.skip(i + 1));
                assert(value_of(quotient@.skip(i as int)) == q + 1_000_000_000 * value_of(
                    quotient@.skip(i + 1),
                )) by {
                    assert(quotient@.skip(i as int).drop_first() =~= quotient@.skip(i + 1));
                }
                let qv = value_of(old_q.skip(i + 1));
                assert(value_of(sa.skip(i + 1)) == bv * qv + (cur - d) / 1_000_000_000);
                assert(bv * (q + 1_000_000_000 * qv) == bv * q + 1_000_000_000 * (bv * qv))
                    by (nonlinear_arith);
                assert(quotient@.update(i as int, q) == quotient@);
                assert(digits_bounded(quotient@)) by {
                    assert forall|j: int| 0 <= j < quotient@.len() implies quotient@[j] < BASE by {
                        if j != i {
                            assert(quotient@[j] == old_q[j]);
                        }
                    }
                }
            }
        }
        proof {
            assert(sa.skip(0) =~= sa);
            assert(quotient@.skip(0) =~= quotient@);
            let qv = value_of(quotient@);
            assert(bv * qv == qv * bv) by (nonlinear_arith);
            vstd::arithmetic::div_mod::lemma_fundamental_div_mod_converse(
                av as int,
                bv as int,
                qv as int,
                remainder@,
            );
            remainder.lemma_wf_sign();
        }
        let q_negative = self.negative != other.negative;
        let rem_zero = remainder.is_zero();
        let mut q_result = BigInt { digits: quotient, negative: q_negative };
        q_result.normalize();
        remainder.negative = if rem_zero {
            false
        } else {
            self.negative
        };
        (q_result, remainder)
    }
}

/// The quotient that [`BigInt::div_rem`] returns: `|a| / |b|`, negated when the
/// signs differ (division rounded toward zero).
pub open spec fn quotient_of(a: int, b: int) -> int {
    let x = if a < 0 { -a } else { a };
    let y = if b < 0 { -b } else { b };
    if (a < 0) != (b < 0) {
        -(x / y)
    } else {
        x / y
    }
}

/// The remainder that [`BigInt::div_rem`] returns: `|a| % |b|` with the sign of `a`.
pub open spec fn remainder_of(a: int, b: int) -> int {
    let x = if a < 0 { -a } else { a };
    let y = if b < 0 { -b } else { b };
    if a < 0 {
        -(x % y)
    } else {
        x % y
    }
}

impl PartialEq for BigInt {
    fn eq(&self, other: &Self) -> (r: bool) {
        if self.negative != other.negative || self.digits.len() != other.digits.len() {
            proof {
                if self.digits@ == other.digits@ {
                    assert(self.digits@.len() == other.digits@.len());
                }
            }
            return false;
        }
        let mut i: usize = 0;
        while i < self.digits.len()
            invariant
                i <= self.digits@.len(),
                self.digits@.len() == other.digits@.len(),
                forall|j: int| 0 <= j < i ==> self.digits@[j] == other.digits@[j],
            decreases self.digits@.len() - i,
        {
            if self.digits[i] != other.digits[i] {
                return false;
            }
            i = i + 1;
        }
        proof {
            assert(self.digits@ =~= other.digits@);
        }
        true
    }
}

impl vstd::std_specs::cmp::PartialEqSpecImpl for BigInt {
    open spec fn obeys_eq_spec() -> bool {
        true
    }

    closed spec fn eq_spec(&self, other: &BigInt) -> bool {
        self.negative == other.negative && self.digits@ == other.digits@
    }
}

impl Eq for BigInt {

}

/// Two well-formed values are `==` exactly when they stand for the same integer.
pub proof fn lemma_eq_iff_same_value(a: &BigInt, b: &BigInt)
    requires
        a.wf(),
        b.wf(),
    ensures
        a.eq_spec(b) <==> a@ == b@,
{
    a.lemma_wf_sign();
    b.lemma_wf_sign();
    if a@ == b@ {
        lemma_canonical_unique(a.digits@, b.digits@);
    }
}

/// A well-formed nonzero value has the parity of its lowest digit.
pub(crate) proof fn lemma_parity(x: &BigInt)
    requires
        x.wf(),
        x.digits@.len() > 0,
    ensures
        x@ % 2 == x.digits@[0] % 2,
        x.magnitude() % 2 == x.digits@[0] % 2,
{
    let s = x.digits@;
    let v = value_of(s.drop_first()) as int;
    let d = s[0] as int;
    let h = 500_000_000 * v;
    assert(value_of(s) == 2 * h + d);
    x.lemma_wf_sign();
    vstd::arithmetic::div_mod::lemma_mod_multiples_vanish(h, d, 2);
    if x.negative {
        assert(-(2 * h + d) == 2 * (-h - d) + d);
        vstd::arithmetic::div_mod::lemma_mod_multiples_vanish(-h - d, d, 2);
    }
}

/// The order that [`BigInt::cmp`] computes: zero against the sign of the other
/// value, then the signs, then the magnitudes.
pub open(crate) spec fn order_of(a: &BigInt, b: &BigInt) -> Ordering {
    let a_zero = a.digits@.len() == 0;
    let b_zero = b.digits@.len() == 0;
    if a_zero && b_zero {
        Ordering::Equal
    } else if a_zero {
        if b.negative {
            Ordering::Greater
        } else {
            Ordering::Less
        }
    } else if b_zero {
        if a.negative {
            Ordering::Less
        } else {
            Ordering::Greater
        }
    } else if a.negative && !b.negative {
        Ordering::Less
    } else if !a.negative && b.negative {
        Ordering::Greater
    } else if a.negative {
        digit_order(b.digits@, a.digits@)
    } else {
        digit_order(a.digits@, b.digits@)
    }
}

impl BigInt {
    /// Three-way comparison of the integers.
    pub fn cmp(&self, other: &Self) -> (r: Ordering)
        ensures
            r == order_of(self, other),
            self.wf() && other.wf() ==> ((r == Ordering::Less) == (self@ < other@)),
            self.wf() && other.wf() ==> ((r == Ordering::Equal) == (self@ == other@)),
            self.wf() && other.wf() ==> ((r == Ordering::Greater) == (self@ > other@)),
    {
        proof {
            if self.wf() && other.wf() {
                lemma_order_is_value_order(self, other);
            }
        }
        match (self.digits.len() == 0, other.digits.len() == 0) {
            (true, true) => return Ordering::Equal,
            (true, false) => return if other.negative {
                Ordering::Greater
            } else {
                Ordering::Less
            },
            (false, true) => return if self.negative {
                Ordering::Less
            } else {
                Ordering::Greater
            },
            _ => {},
        }
        match (self.negative, other.negative) {
            (true, false) => Ordering::Less,
            (false, true) => Ordering::Greater,
            (true, true) => other.abs_cmp(self),
            (false, false) => self.abs_cmp(other),
        }
    }
}

/// On well-formed values [`order_of`] is the order of the integers.
proof fn lemma_order_is_value_order(a: &BigInt, b: &BigInt)
    requires
        a.wf(),
        b.wf(),
    ensures
        (order_of(a, b) == Ordering::Less) == (a@ < b@),
        (order_of(a, b) == Ordering::Equal) == (a@ == b@),
        (order_of(a, b) == Ordering::Greater) == (a@ > b@),
{
    a.lemma_wf_sign();
    b.lemma_wf_sign();
    lemma_digit_order(a.digits@, b.digits@);
    lemma_digit_order(b.digits@, a.digits@);
}

impl PartialOrd for BigInt {
    fn partial_cmp(&self, other: &Self) -> (r: Option<Ordering>) {
        Some(self.cmp(other))
    }
}

impl vstd::std_specs::cmp::PartialOrdSpecImpl for BigInt {
    open spec fn obeys_partial_cmp_spec() -> bool {
        true
    }

    open spec fn partial_cmp_spec(&self, other: &BigInt) -> Option<Ordering> {
        Some(order_of(self, other))
    }
}

/// `<`, `==` and `>` between well-formed values are those of the integers they
/// stand for.
pub proof fn lemma_order_matches_integers(a: &BigInt, b: &BigInt)
    requires
        a.wf(),
        b.wf(),
    ensures
        (a.partial_cmp_spec(b) == Some(Ordering::Less)) == (a@ < b@),
        (a.partial_cmp_spec(b) == Some(Ordering::Equal)) == (a@ == b@),
        (a.partial_cmp_spec(b) == Some(Ordering::Greater)) == (a@ > b@),
{
    lemma_order_is_value_order(a, b);
}

impl Clone for BigInt {
    fn clone(&self) -> (r: Self)
        ensures
            r.limbs() == self.limbs(),
            r@ == self@,
            r.wf() == self.wf(),
    {
        self.copy()
    }
}

impl From<u64> for BigInt {
    fn from(n: u64) -> (r: Self)
        ensures
            r.wf(),
            r@ == n as int,
    {
        Self::from_u64(n)
    }
}

impl vstd::std_specs::convert::FromSpecImpl<u64> for BigInt {
    open spec fn obeys_from_spec() -> bool {
        false
    }

    open spec fn from_spec(v: u64) -> BigInt {
        arbitrary()
    }
}

impl From<i64> for BigInt {
    fn from(n: i64) -> (r: Self)
        ensures
            r.wf(),
            r@ == n as int,
    {
        Self::from_i64(n)
    }
}

impl vstd::std_specs::convert::FromSpecImpl<i64> for BigInt {
    open spec fn obeys_from_spec() -> bool {
        false
    }

    open spec fn from_spec(v: i64) -> BigInt {
        arbitrary()
    }
}

impl From<i32> for BigInt {
    fn from(n: i32) -> (r: Self)
        ensures
            r.wf(),
            r@ == n as int,
    {
        Self::from_i64(n as i64)
    }
}

impl vstd::std_specs::convert::FromSpecImpl<i32> for BigInt {
    open spec fn obeys_from_spec() -> bool {
        false
    }

    open spec fn from_spec(v: i32) -> BigInt {
        arbitrary()
    }
}

impl From<u32> for BigInt {
    fn from(n: u32) -> (r: Self)
        ensures
            r.wf(),
            r@ == n as int,
    {
        Self::from_u64(n as u64)
    }
}

impl vstd::std_specs::convert::FromSpecImpl<u32> for BigInt {
    open spec fn obeys_from_spec() -> bool {
        false
    }

    open spec fn from_spec(v: u32) -> BigInt {
        arbitrary()
    }
}

impl<'a, 'b> Add<&'b BigInt> for &'a BigInt {
    type Output = BigInt;

    fn add(self, other: &'b BigInt) -> (r: BigInt)
        ensures
            r.wf(),
            r@ == self@ + other@,
    {
        crate::arithmetic::add(self, other)
    }
}

impl<'a, 'b> vstd::std_specs::ops::AddSpecImpl<&'b BigInt> for &'a BigInt {
    open spec fn obeys_add_spec() -> bool {
        false
    }

    open spec fn add_req(self, other: &'b BigInt) -> bool {
        self.wf() && other.wf()
    }

    open spec fn add_spec(self, other: &'b BigInt) -> BigInt {
        arbitrary()
    }
}

impl Add for BigInt {
    type Output = BigInt;

    fn add(self, other: BigInt) -> (r: BigInt)
        ensures
            r.wf(),
            r@ == self@ + other@,
    {
        crate::arithmetic::add(&self, &other)
    }
}

impl vstd::std_specs::ops::AddSpecImpl for BigInt {
    open spec fn obeys_add_spec() -> bool {
        false
    }

    open spec fn add_req(self, other: BigInt) -> bool {
        self.wf() && other.wf()
    }

    open spec fn add_spec(self, other: BigInt) -> BigInt {
        arbitrary()
    }
}

impl<'a, 'b> Sub<&'b BigInt> for &'a BigInt {
    type Output = BigInt;

    fn sub(self, other: &'b BigInt) -> (r: BigInt)
        ensures
            r.wf(),
            r@ == self@ - other@,
    {
        crate::arithmetic::sub(self, other)
    }
}

impl<'a, 'b> vstd::std_specs::ops::SubSpecImpl<&'b BigInt> for &'a BigInt {
    open spec fn obeys_sub_spec() -> bool {
        false
    }

    open spec fn sub_req(self, other: &'b BigInt) -> bool {
        self.wf() && other.wf()
    }

    open spec fn sub_spec(self, other: &'b BigInt) -> BigInt {
        arbitrary()
    }
}

impl Sub for BigInt {
    type Output = BigInt;

    fn sub(self, other: BigInt) -> (r: BigInt)
        ensures
            r.wf(),
            r@ == self@ - other@,
    {
        crate::arithmetic::sub(&self, &other)
    }
}

impl vstd::std_specs::ops::SubSpecImpl for BigInt {
    open spec fn obeys_sub_spec() -> bool {
        false
    }

    open spec fn sub_req(self, other: BigInt) -> bool {
        self.wf() && other.wf()
    }

    open spec fn sub_spec(self, other: BigInt) -> BigInt {
        arbitrary()
    }
}

impl<'a, 'b> Mul<&'b BigInt> for &'a BigInt {
    type Output = BigInt;

    fn mul(self, other: &'b BigInt) -> (r: BigInt)
        ensures
            r.wf(),
            r@ == self@ * other@,
    {
        crate::arithmetic::mul(self, other)
    }
}

impl<'a, 'b> vstd::std_specs::ops::MulSpecImpl<&'b BigInt> for &'a BigInt {
    open spec fn obeys_mul_spec() -> bool {
        false
    }

    open spec fn mul_req(self, other: &'b BigInt) -> bool {
        self.wf() && other.wf()
    }

    open spec fn mul_spec(self, other: &'b BigInt) -> BigInt {
        arbitrary()
    }
}

impl Mul for BigInt {
    type Output = BigInt;

    fn mul(self, other: BigInt) -> (r: BigInt)
        ensures
            r.wf(),
            r@ == self@ * other@,
    {
        crate::arithmetic::mul(&self, &other)
    }
}

impl vstd::std_specs::ops::MulSpecImpl for BigInt {
    open spec fn obeys_mul_spec() -> bool {
        false
    }

    open spec fn mul_req(self, other: BigInt) -> bool {
        self.wf() && other.wf()
    }

    open spec fn mul_spec(self, other: BigInt) -> BigInt {
        arbitrary()
    }
}

impl Neg for BigInt {
    type Output = BigInt;

    fn neg(self) -> (r: BigInt)
        ensures
            r@ == -self@,
            self.wf() ==> r.wf(),
    {
        let mut r = self;
        if r.digits.len() != 0 {
            r.negative = !r.negative;
        }
        r
    }
}

impl vstd::std_specs::ops::NegSpecImpl for BigInt {
    open spec fn obeys_neg_spec() -> bool {
        false
    }

    open spec fn neg_req(self) -> bool {
        true
    }

    open spec fn neg_spec(self) -> BigInt {
        arbitrary()
    }
}

impl<'a> Neg for &'a BigInt {
    type Output = BigInt;

    fn neg(self) -> (r: BigInt)
        ensures
            r@ == -self@,
            self.wf() ==> r.wf(),
    {
        let mut r = self.copy();
        if r.digits.len() != 0 {
            r.negative = !r.negative;
        }
        r
    }
}

impl<'a> vstd::std_specs::ops::NegSpecImpl for &'a BigInt {
    open spec fn obeys_neg_spec() -> bool {
        false
    }

    open spec fn neg_req(self) -> bool {
        true
    }

    open spec fn neg_spec(self) -> BigInt {
        arbitrary()
    }
}

/// The characters of a string slice.
fn chars_of(s: &str) -> (r: Vec<char>)
    ensures
        r@ == s@,
{
    let mut out: Vec<char> = Vec::new();
    for c in it: s.chars()
        invariant
            out@ == it.seq().take(it.index() as int),
    {
        out.push(c);
    }
    out
}

/// Whether `c` is whitespace.
fn is_white_char(c: char) -> (r: bool)
    ensures
        r == is_white(c),
{
    c == '\t' || c == '\n' || c == '\u{0B}' || c == '\u{0C}' || c == '\r' || c == ' ' || c
        == '\u{85}' || c == '\u{A0}' || c == '\u{1680}' || ('\u{2000}' <= c && c <= '\u{200A}')
        || c == '\u{2028}' || c == '\u{2029}' || c == '\u{202F}' || c == '\u{205F}' || c
        == '\u{3000}'
}

/// The digit that `c` stands for in `radix`, or zero when it stands for none
/// (`char::to_digit(radix).unwrap_or(0)`).
fn radix_digit_of(c: char, radix: u32) -> (r: u64)
    requires
        2 <= radix <= 36,
    ensures
        r == radix_digit(c, radix as nat),
        r < radix,
{
    let code = c as u32;
    let v: u32 = if '0' <= c && c <= '9' {
        code - 48
    } else if 'a' <= c && c <= 'z' {
        code - 97 + 10
    } else if 'A' <= c && c <= 'Z' {
        code - 65 + 10
    } else {
        radix
    };
    if v < radix {
        v as u64
    } else {
        0
    }
}

/// Reads one chunk of at most nine characters as `u64::from_str` does.
fn parse_chunk(cs: &Vec<char>, start: usize, end: usize) -> (r: u64)
    requires
        start < end <= cs@.len(),
        end - start <= 9,
        chunk_ok(cs@.subrange(start as int, end as int)),
    ensures
        r == chunk_value(cs@.subrange(start as int, end as int)),
        r < BASE,
{
    let ghost c = cs@.subrange(start as int, end as int);
    let mut first = start;
    if cs[start] == '+' {
        first = start + 1;
    }
    let ghost body = cs@.subrange(first as int, end as int);
    proof {
        if cs[start as int] == '+' {
            assert(body =~= c.drop_first());
        } else {
            assert(body =~= c);
        }
        assert(all_decimal(body));
        assert(cs@.subrange(first as int, first as int) =~= Seq::<char>::empty());
    }
    let mut v: u64 = 0;
    let mut j = first;
    while j < end
        invariant
            first <= j <= end,
            end <= cs@.len(),
            end - first <= 9,
            body == cs@.subrange(first as int, end as int),
            all_decimal(body),
            v == decimal_value(cs@.subrange(first as int, j as int)),
            v < pow10((j - first) as nat),
        decreases end - j,
    {
        let ch = cs[j];
        proof {
            assert(is_decimal(body[j - first]));
            assert(body[j - first] == ch);
            let sub = cs@.subrange(first as int, j + 1);
            assert(sub.drop_last() =~= cs@.subrange(first as int, j as int));
            assert(sub.last() == ch);
            assert(pow10((j + 1 - first) as nat) == 10 * pow10((j - first) as nat));
            lemma_pow10_le_9((j + 1 - first) as nat);
        }
        let d = (ch as u32 - 48) as u64;
        v = v * 10 + d;
        j = j + 1;
    }
    proof {
        lemma_pow10_le_9((end - first) as nat);
    }
    v
}

/// `10^k <= 10^9` for `k <= 9`.
proof fn lemma_pow10_le_9(k: nat)
    requires
        k <= 9,
    ensures
        pow10(k) <= 1_000_000_000,
    decreases 9 - k,
{
    if k < 9 {
        lemma_pow10_le_9(k + 1);
        lemma_pow10_pos(k);
        assert(pow10(k + 1) == 10 * pow10(k));
    } else {
        reveal_with_fuel(pow10, 10);
    }
}

impl BigInt {
    /// Parses a `BigInt` from a string in the given radix (2–36, 10 is primary).
    ///
    /// Surrounding whitespace, a leading `-` and leading zeros are skipped. In
    /// radix 10 the digits are read in chunks of nine from the right, each as
    /// `u64::from_str` reads it; in another radix a character that is not a
    /// digit of the radix counts as zero.
    pub fn from_str_radix(s: &str, radix: u32) -> (r: Self)
        requires
            parse_ok(s@, radix),
        ensures
            r.wf(),
            r@ == parsed(s@, radix),
    {
        let cs = chars_of(s);
        let n = cs.len();
        let ghost t0 = cs@;
        let mut lo: usize = 0;
        proof {
            assert(t0.subrange(0, n as int) =~= t0);
        }
        while lo < n && is_white_char(cs[lo as usize])
            invariant
                cs@ == t0,
                n == t0.len(),
                lo <= n,
                trim_start(t0) == trim_start(t0.subrange(lo as int, n as int)),
            decreases n - lo,
        {
            proof {
                assert(t0.subrange(lo as int, n as int).drop_first() =~= t0.subrange(lo + 1, n as int));
            }
            lo = lo + 1;
        }
        proof {
            if lo < n {
                assert(t0.subrange(lo as int, n as int)[0] == t0[lo as int]);
            }
        }
        let mut hi: usize = n;
        while hi > lo && is_white_char(cs[hi - 1])
            invariant
                cs@ == t0,
                n == t0.len(),
                lo <= hi <= n,
                trim_end(trim_start(t0)) == trim_end(t0.subrange(lo as int, hi as int)),
            decreases hi - lo,
        {
            proof {
                assert(t0.subrange(lo as int, hi as int).drop_last() =~= t0.subrange(
                    lo as int,
                    hi - 1,
                ));
                assert(t0.subrange(lo as int, hi as int).last() == t0[hi - 1]);
            }
            hi = hi - 1;
        }
        proof {
            if hi > lo {
                assert(t0.subrange(lo as int, hi as int).last() == t0[hi - 1]);
            }
            assert(trim_end(trim_start(t0)) == t0.subrange(lo as int, hi as int));
        }
        let mut negative = false;
        if lo < hi && cs[lo] == '-' {
            proof {
                assert(t0.subrange(lo as int, hi as int).drop_first() =~= t0.subrange(
                    lo + 1,
                    hi as int,
                ));
            }
            negative = true;
            lo = lo + 1;
        }
        proof {
            assert(unsigned_part(t0) == t0.subrange(lo as int, hi as int));
            assert(has_minus(t0) == negative);
        }
        while lo < hi && cs[lo] == '0'
            invariant
                cs@ == t0,
                n == t0.len(),
                lo <= hi <= n,
                significant(t0) == strip_zeros(t0.subrange(lo as int, hi as int)),
            decreases hi - lo,
        {
            proof {
                assert(t0.subrange(lo as int, hi as int).drop_first() =~= t0.subrange(
                    lo + 1,
                    hi as int,
                ));
            }
            lo = lo + 1;
        }
        let ghost u = t0.subrange(lo as int, hi as int);
        proof {
            assert(significant(t0) == u);
        }
        if lo == hi {
            return Self::zero();
        }
        if radix == 10 {
            // Parse as chunks of up to 9 digits from the right
            let mut digits: Vec<u64> = Vec::new();
            let mut i = hi;
            proof {
                assert(value_of(digits@) == 0);
                assert(pow_base(0) == 1);
                assert(pow_base(0) * chunked_value(u) == chunked_value(u)) by (nonlinear_arith)
                    requires
                        pow_base(0) == 1,
                ;
                assert(t0.subrange(lo as int, i as int) =~= u);
            }
            while i > lo
                invariant
                    cs@ == t0,
                    lo <= i <= hi,
                    hi <= t0.len(),
                    u == t0.subrange(lo as int, hi as int),
                    digits_bounded(digits@),
                    chunks_ok(t0.subrange(lo as int, i as int)),
                    chunked_value(u) == value_of(digits@) + pow_base(digits@.len())
                        * chunked_value(t0.subrange(lo as int, i as int)),
                decreases i - lo,
            {
                let start = if i - lo >= 9 {
                    i - 9
                } else {
                    lo
                };
                let ghost w = t0.subrange(lo as int, i as int);
                proof {
                    assert(chunk_start(w.len()) == start - lo);
                    assert(w.subrange((start - lo) as int, w.len() as int) =~= t0.subrange(
                        start as int,
                        i as int,
                    ));
                    assert(w.subrange(0, (start - lo) as int) =~= t0.subrange(
                        lo as int,
                        start as int,
                    ));
                }
                let chunk = parse_chunk(&cs, start, i);
                proof {
                    let c = chunked_value(t0.subrange(lo as int, start as int));
                    let p = pow_base(digits@.len());
                    lemma_value_push(digits@, chunk);
                    assert(pow_base(digits@.len() + 1) == 1_000_000_000 * p);
                    assert(p * (chunk + 1_000_000_000 * c) == chunk * p + (1_000_000_000 * p) * c)
                        by (nonlinear_arith);
                }
                digits.push(chunk);
                i = start;
            }
            proof {
                assert(t0.subrange(lo as int, i as int) =~= Seq::<char>::empty());
                lemma_zero_times(0, digits@.len());
            }
            let mut result = BigInt { digits, negative };
            result.normalize();
            return result;
        }
        // General radix: build via repeated multiply-and-add
        let mut result = Self::zero();
        let mut j = lo;
        proof {
            assert(t0.subrange(lo as int, lo as int) =~= Seq::<char>::empty());
        }
        while j < hi
            invariant
                cs@ == t0,
                lo <= j <= hi,
                hi <= t0.len(),
                2 <= radix <= 36,
                result.wf(),
                result@ >= 0,
                result@ == radix_value(t0.subrange(lo as int, j as int), radix as nat),
            decreases hi - j,
        {
            let d = radix_digit_of(cs[j], radix);
            let shifted = result.mul_u64(radix as u64);
            proof {
                shifted.lemma_wf_sign();
            }
            result = shifted.add_u64(d);
            proof {
                let sub = t0.subrange(lo as int, j + 1);
                assert(sub.drop_last() =~= t0.subrange(lo as int, j as int));
                assert(sub.last() == t0[j as int]);
                result.lemma_wf_sign();
            }
            j = j + 1;
        }
        proof {
            assert(t0.subrange(lo as int, hi as int) == u);
            result.lemma_wf_sign();
        }
        if negative && !result.is_zero() {
            result.negative = true;
        }
        result
    }
}

/// `String::push`: appends one character.
#[verifier::external_body]
fn push_char(s: &mut String, c: char)
    ensures
        final(s)@ == old(s)@.push(c),
{
    s.push(c);
}

/// The character of a decimal digit.
fn digit_to_char(d: u64) -> (c: char)
    requires
        d < 10,
    ensures
        c == digit_char(d as nat),
{
    let b: u8 = 48u8 + d as u8;
    b as char
}

/// Appends the decimal numeral of `v`.
fn push_decimal(out: &mut String, v: u64)
    ensures
        final(out)@ == old(out)@ + decimal_digits(v as nat),
    decreases v,
{
    if v >= 10 {
        push_decimal(out, v / 10);
    }
    push_char(out, digit_to_char(v % 10));
    proof {
        if v < 10 {
            assert(old(out)@ + decimal_digits(v as nat) =~= old(out)@.push(digit_char(v as nat)));
        } else {
            assert(old(out)@ + decimal_digits(v as nat) =~= (old(out)@ + decimal_digits(
                (v / 10) as nat,
            )).push(digit_char((v % 10) as nat)));
        }
    }
}

/// Appends the `k` lowest decimal digits of `v`, zero-padded.
fn push_padded(out: &mut String, v: u64, k: usize)
    ensures
        final(out)@ == old(out)@ + padded_digits(v as nat, k as nat),
    decreases k,
{
    if k > 0 {
        push_padded(out, v / 10, k - 1);
        push_char(out, digit_to_char(v % 10));
        proof {
            assert(old(out)@ + padded_digits(v as nat, k as nat) =~= (old(out)@ + padded_digits(
                (v / 10) as nat,
                (k - 1) as nat,
            )).push(digit_char((v % 10) as nat)));
        }
    } else {
        proof {
            assert(old(out)@ + padded_digits(v as nat, 0) =~= old(out)@);
        }
    }
}

impl BigInt {
    /// The decimal numeral, with a leading `-` for a negative value.
    pub fn to_string(&self) -> (r: String)
        requires
            self.wf(),
        ensures
            r@ == decimal_string(self@),
    {
        let mut out = String::new();
        if self.is_zero() {
            push_char(&mut out, '0');
            proof {
                assert(decimal_digits(0) =~= seq!['0']);
                assert(digit_char(0) == '0');
            }
            return out;
        }
        proof {
            self.lemma_wf_sign();
        }
        let ghost sign: Seq<char> = if self.negative {
            seq!['-']
        } else {
            Seq::<char>::empty()
        };
        if self.negative {
            push_char(&mut out, '-');
        }
        proof {
            assert(out@ =~= sign);
        }
        let len = self.digits.len();
        let ghost s = self.digits@;
        let last = self.digits[len - 1];
        push_decimal(&mut out, last);
        let mut i = len - 1;
        proof {
            assert(s.skip(i as int) =~= seq![last]);
            assert(seq![last].drop_first() =~= Seq::<u64>::empty());
            assert(value_of(Seq::<u64>::empty()) == 0);
            assert(value_of(seq![last]) == last);
        }
        while i > 0
            invariant
                s == self.digits@,
                canonical(s),
                s.len() > 0,
                i < s.len(),
                out@ == sign + decimal_digits(value_of(s.skip(i as int))),
            decreases i,
        {
            i = i - 1;
            let d = self.digits[i];
            push_padded(&mut out, d, 9);
            proof {
                let hi_part = s.skip(i + 1);
                assert(hi_part.len() > 0 && hi_part[hi_part.len() - 1] == s[s.len() - 1]);
                lemma_value_lower(hi_part);
                lemma_pow_base_pos((hi_part.len() - 1) as nat);
                reveal_with_fuel(pow10, 10);
                lemma_decimal_concat(value_of(hi_part), d as nat, 9);
                assert(s.skip(i as int).drop_first() =~= hi_part);
                assert(value_of(s.skip(i as int)) == d + 1_000_000_000 * value_of(hi_part));
                assert(pow10(9) == 1_000_000_000);
                let hv = value_of(hi_part);
                assert(hv * pow10(9) == 1_000_000_000 * hv) by (nonlinear_arith)
                    requires
                        pow10(9) == 1_000_000_000,
                ;
                assert(value_of(hi_part) * pow10(9) + d == value_of(s.skip(i as int)));
            }
        }
        proof {
            assert(s.skip(0) =~= s);
            if self.negative {
                assert(decimal_string(self@) == seq!['-'] + decimal_digits(value_of(s)));
            } else {
                assert(sign + decimal_digits(value_of(s)) =~= decimal_digits(value_of(s)));
            }
        }
        out
    }
}

/// The division identity of [`BigInt::div_rem`]: for every nonzero `b`,
/// `a == q * b + r` with `|r| < |b|` and `r` carrying the sign of `a`; on
/// nonnegative operands it is Euclidean division.
pub proof fn lemma_div_rem_identity(a: int, b: int)
    requires
        b != 0,
    ensures
        a == quotient_of(a, b) * b + remainder_of(a, b),
        -(if b < 0 { -b } else { b }) < remainder_of(a, b) < (if b < 0 { -b } else { b }),
        remainder_of(a, b) == 0 || (remainder_of(a, b) < 0) == (a < 0),
        a >= 0 && b > 0 ==> quotient_of(a, b) == a / b && remainder_of(a, b) == a % b,
{
    let x = if a < 0 { -a } else { a };
    let y = if b < 0 { -b } else { b };
    vstd::arithmetic::div_mod::lemma_fundamental_div_mod(x, y);
    vstd::arithmetic::div_mod::lemma_mod_bound(x, y);
    vstd::arithmetic::div_mod::lemma_div_pos_is_pos(x, y);
    let q = x / y;
    let r = x % y;
    if a == 0 {
        vstd::arithmetic::div_mod::lemma_small_mod(0, y as nat);
        vstd::arithmetic::div_mod::lemma_basic_div(0, y);
    }
    assert(x == y * q + r);
    if a < 0 && b < 0 {
        assert(a == q * b - r) by (nonlinear_arith)
            requires
                x == y * q + r,
                x == -a,
                y == -b,
        ;
    } else if a < 0 && b > 0 {
        assert(a == (-q) * b - r) by (nonlinear_arith)
            requires
                x == y * q + r,
                x == -a,
                y == b,
        ;
    } else if a >= 0 && b < 0 {
        assert(a == (-q) * b + r) by (nonlinear_arith)
            requires
                x == y * q + r,
                x == a,
                y == -b,
        ;
    } else {
        assert(a == q * b + r) by (nonlinear_arith)
            requires
                x == y * q + r,
                x == a,
                y == b,
        ;
    }
}

} // verus!
