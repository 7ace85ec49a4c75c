//! Karatsuba multiplication algorithm.
//!
//! Implements the divide-and-conquer Karatsuba algorithm with O(n^log₂3) complexity,
//! falling back to schoolbook multiplication for small operands.

use vstd::prelude::*;
use crate::bigint::BigInt;
use crate::digits::{
    BASE, canonical, digit_at, digits_bounded, lemma_bounded_subrange, lemma_carry_push,
    lemma_carry_update, lemma_low_value_full, lemma_low_value_step, lemma_pow_base_pos,
    lemma_low_value_zero, lemma_offset_fits, lemma_pow_base_add, lemma_pow_base_mono,
    lemma_value_drop_zero, lemma_value_push, lemma_value_split, lemma_value_upper, lemma_zero_times,
    low_value, pow_base, push_zeros, value_of,
};

verus! {

/// Threshold below which schoolbook multiplication is used.
const KARATSUBA_THRESHOLD: usize = 4;

/// Multiplies two `BigInt` values using Karatsuba's algorithm.
///
/// For operands with fewer than `KARATSUBA_THRESHOLD` digits, falls back to schoolbook.
/// Otherwise, splits each operand at the midpoint and recursively computes:
///   z₀ = low(a) × low(b)
///   z₂ = high(a) × high(b)
///   z₁ = (low(a) + high(a)) × (low(b) + high(b)) - z₀ - z₂
///   result = z₂ × B^(2m) + z₁ × B^m + z₀
pub fn karatsuba_mul(a: &BigInt, b: &BigInt) -> (r: BigInt)
    requires
        a.wf(),
        b.wf(),
    ensures
        r.wf(),
        r@ == a@ * b@,
{
    if a.is_zero() || b.is_zero() {
        proof {
            assert(a@ * b@ == 0) by (nonlinear_arith)
                requires
                    a@ == 0 || b@ == 0,
            ;
        }
        return BigInt::zero();
    }
    let result = karatsuba_inner(a.digits.as_slice(), b.digits.as_slice());
    let mut r = BigInt { digits: result, negative: a.negative != b.negative };
    r.normalize();
    proof {
        a.lemma_wf_sign();
        b.lemma_wf_sign();
        let x = a.magnitude();
        let y = b.magnitude();
        assert(x * y > 0) by (nonlinear_arith)
            requires
                x > 0,
                y > 0,
        ;
        assert(a@ * b@ == if a.negative != b.negative {
            -(x * y)
        } else {
            (x * y) as int
        }) by (nonlinear_arith)
            requires
                a@ == if a.negative { -x } else { x as int },
                b@ == if b.negative { -y } else { y as int },
        ;
    }
    r
}

/// The larger of two lengths.
pub open spec fn longer_len(a: Seq<u64>, b: Seq<u64>) -> nat {
    if a.len() >= b.len() {
        a.len()
    } else {
        b.len()
    }
}

/// Inner Karatsuba on raw digit vectors (base 10^9).
fn karatsuba_inner(a: &[u64], b: &[u64]) -> (r: Vec<u64>)
    requires
        digits_bounded(a@),
        digits_bounded(b@),
    ensures
        canonical(r@),
        value_of(r@) == value_of(a@) * value_of(b@),
    decreases longer_len(a@, b@),
{
    let n = a.len().max(b.len());
    if n < KARATSUBA_THRESHOLD {
        return schoolbook_digits(a, b);
    }
    let m = n / 2;
    let (a_low, a_high) = split_at(a, m);
    let (b_low, b_high) = split_at(b, m);

    let z0 = karatsuba_inner(a_low.as_slice(), b_low.as_slice());
    let z2 = karatsuba_inner(a_high.as_slice(), b_high.as_slice());

    let a_sum = add_digits(a_low.as_slice(), a_high.as_slice());
    let b_sum = add_digits(b_low.as_slice(), b_high.as_slice());
    let z1_full = karatsuba_inner(a_sum.as_slice(), b_sum.as_slice());

    let ghost al = value_of(a_low@);
    let ghost ah = value_of(a_high@);
    let ghost bl = value_of(b_low@);
    let ghost bh = value_of(b_high@);
    let ghost pm = pow_base(m as nat);
    proof {
        assert((al + ah) * (bl + bh) == al * bl + (al * bh + ah * bl) + ah * bh)
            by (nonlinear_arith);
        assert(al * bh + ah * bl >= 0) by (nonlinear_arith)
            requires
                al >= 0,
                ah >= 0,
                bl >= 0,
                bh >= 0,
        ;
        assert(ah * bh >= 0) by (nonlinear_arith)
            requires
                ah >= 0,
                bh >= 0,
        ;
    }
    let z1_partial = sub_digits(z1_full.as_slice(), z0.as_slice());
    let z1 = sub_digits(z1_partial.as_slice(), z2.as_slice());

    // result = z0 + z1 * BASE^m + z2 * BASE^(2m)
    let mut result: Vec<u64> = Vec::new();
    push_zeros(&mut result, a.len());
    push_zeros(&mut result, b.len());
    push_zeros(&mut result, 1);
    let ghost len = result@.len();
    proof {
        let va = value_of(a@);
        let vb = value_of(b@);
        lemma_value_upper(a@);
        lemma_value_upper(b@);
        lemma_pow_base_add(a@.len(), b@.len());
        lemma_pow_base_mono(a@.len() + b@.len(), len);
        lemma_pow_base_add(m as nat, m as nat);
        let pa = pow_base(a@.len());
        let pb = pow_base(b@.len());
        assert(va * vb < pa * pb) by (nonlinear_arith)
            requires
                0 <= va < pa,
                0 <= vb < pb,
        ;
        assert(va == al + pm * ah);
        assert(vb == bl + pm * bh);
        assert((al + pm * ah) * (bl + pm * bh) == al * bl + (al * bh + ah * bl) * pm + (ah * bh)
            * (pm * pm)) by (nonlinear_arith);
        assert((al * bh + ah * bl) * pm >= 0) by (nonlinear_arith)
            requires
                al * bh + ah * bl >= 0,
                pm >= 0,
        ;
        assert((ah * bh) * (pm * pm) >= 0) by (nonlinear_arith)
            requires
                ah * bh >= 0,
        ;
        assert(value_of(result@) == 0);
        lemma_zero_times(0, 0);
        assert(pow_base(0) == 1);
        assert(value_of(z0@) * pow_base(0) == value_of(z0@)) by (nonlinear_arith)
            requires
                pow_base(0) == 1,
        ;
        lemma_offset_fits(z0@, 0, len);
        lemma_offset_fits(z1@, m as nat, len);
        lemma_offset_fits(z2@, (2 * m) as nat, len);
    }
    add_to(result.as_mut_slice(), z0.as_slice(), 0);
    add_to(result.as_mut_slice(), z1.as_slice(), m);
    add_to(result.as_mut_slice(), z2.as_slice(), 2 * m);
    trim_zeros(result)
}

/// Splits a digit slice at position `m`, padding the low part with zeros.
fn split_at(digits: &[u64], m: usize) -> (res: (Vec<u64>, Vec<u64>))
    requires
        digits_bounded(digits@),
    ensures
        res.0@.len() == m,
        res.1@.len() == if digits@.len() > m { digits@.len() - m } else { 0 },
        digits_bounded(res.0@),
        digits_bounded(res.1@),
        value_of(digits@) == value_of(res.0@) + pow_base(m as nat) * value_of(res.1@),
{
    let ghost s = digits@;
    let mut low: Vec<u64> = Vec::new();
    let mut i: usize = 0;
    proof {
        lemma_low_value_zero(s);
        assert(value_of(Seq::<u64>::empty()) == 0);
    }
    while i < m
        invariant
            s == digits@,
            digits_bounded(s),
            i <= m,
            low@.len() == i,
            digits_bounded(low@),
            value_of(low@) == low_value(s, i as int),
        decreases m - i,
    {
        let d = if i < digits.len() {
            digits[i]
        } else {
            0
        };
        proof {
            lemma_value_push(low@, d);
            lemma_low_value_step(s, i as int);
            assert(digit_at(s, i as int) == d);
        }
        low.push(d);
        i = i + 1;
    }
    let mut high: Vec<u64> = Vec::new();
    if digits.len() > m {
        let mut j: usize = m;
        proof {
            assert(high@ =~= s.subrange(m as int, j as int));
        }
        while j < digits.len()
            invariant
                s == digits@,
                m <= j <= s.len(),
                high@ == s.subrange(m as int, j as int),
            decreases s.len() - j,
        {
            high.push(digits[j]);
            proof {
                assert(high@ =~= s.subrange(m as int, j + 1));
            }
            j = j + 1;
        }
        proof {
            assert(j == s.len());
        }
    }
    proof {
        if s.len() > m {
            lemma_value_split(s, m as int);
            assert(high@ =~= s.skip(m as int));
            lemma_bounded_subrange(s, m as int, s.len() as int);
        } else {
            lemma_low_value_full(s, m as int);
            assert(high@ =~= Seq::<u64>::empty());
            lemma_zero_times(value_of(high@) as int, m as nat);
        }
    }
    (low, high)
}

/// Adds two digit vectors.
fn add_digits(a: &[u64], b: &[u64]) -> (r: Vec<u64>)
    requires
        digits_bounded(a@),
        digits_bounded(b@),
    ensures
        digits_bounded(r@),
        value_of(r@) == value_of(a@) + value_of(b@),
        r@.len() <= longer_len(a@, b@) + 1,
{
    let max_len = a.len().max(b.len());
    let mut result: Vec<u64> = Vec::new();
    let mut carry: u64 = 0;
    let mut i: usize = 0;
    proof {
        lemma_low_value_zero(a@);
        lemma_low_value_zero(b@);
        assert(value_of(Seq::<u64>::empty()) == 0);
    }
    while i < max_len
        invariant
            digits_bounded(a@),
            digits_bounded(b@),
            max_len == longer_len(a@, b@),
            i <= max_len,
            result@.len() == i,
            digits_bounded(result@),
            carry <= 1,
            value_of(result@) + carry * pow_base(i as nat) == low_value(a@, i as int) + low_value(
                b@,
                i as int,
            ),
        decreases max_len - i,
    {
        let da = if i < a.len() {
            a[i]
        } else {
            0
        };
        let db = if i < b.len() {
            b[i]
        } else {
            0
        };
        let sum = da + db + carry;
        proof {
            lemma_carry_push(result@, sum);
            lemma_low_value_step(a@, i as int);
            lemma_low_value_step(b@, i as int);
            assert(digit_at(a@, i as int) == da);
            assert(digit_at(b@, i as int) == db);
            let p = pow_base(i as nat);
            assert(sum * p == da * p + db * p + carry * p) by (nonlinear_arith)
                requires
                    sum == da + db + carry,
            ;
        }
        result.push(sum % BASE);
        carry = sum / BASE;
        i = i + 1;
    }
    proof {
        lemma_low_value_full(a@, i as int);
        lemma_low_value_full(b@, i as int);
    }
    if carry > 0 {
        proof {
            lemma_value_push(result@, carry);
            let p = pow_base(i as nat);
            assert(carry * p == p * carry) by (nonlinear_arith);
        }
        result.push(carry);
    } else {
        proof {
            lemma_zero_times(carry as int, i as nat);
        }
    }
    result
}

/// Subtracts digit vector `b` from `a` (assumes a >= b).
fn sub_digits(a: &[u64], b: &[u64]) -> (r: Vec<u64>)
    requires
        digits_bounded(a@),
        digits_bounded(b@),
        value_of(b@) <= value_of(a@),
    ensures
        canonical(r@),
        value_of(r@) == value_of(a@) - value_of(b@),
        r@.len() <= a@.len(),
{
    let mut result: Vec<u64> = Vec::new();
    let mut borrow: i64 = 0;
    let base = BASE as i64;
    let mut i: usize = 0;
    proof {
        lemma_low_value_zero(a@);
        lemma_low_value_zero(b@);
        assert(value_of(Seq::<u64>::empty()) == 0);
    }
    while i < a.len()
        invariant
            digits_bounded(a@),
            digits_bounded(b@),
            value_of(b@) <= value_of(a@),
            base == 1_000_000_000,
            i <= a@.len(),
            result@.len() == i,
            digits_bounded(result@),
            0 <= borrow <= 1,
            value_of(result@) + low_value(b@, i as int) == low_value(a@, i as int) + borrow
                * pow_base(i as nat),
        decreases a@.len() - i,
    {
        let da = a[i] as i64;
        let db = if i < b.len() {
            b[i] as i64
        } else {
            0
        };
        let mut diff = da - db - borrow;
        let ghost old_borrow = borrow;
        if diff < 0 {
            diff += base;
            borrow = 1;
        } else {
            borrow = 0;
        }
        proof {
            lemma_value_push(result@, diff as u64);
            lemma_low_value_step(a@, i as int);
            lemma_low_value_step(b@, i as int);
            assert(digit_at(a@, i as int) == da);
            assert(digit_at(b@, i as int) == db);
            let p = pow_base(i as nat);
            assert(pow_base((i + 1) as nat) == 1_000_000_000 * p);
            assert(diff * p + db * p + old_borrow * p == da * p + borrow * (1_000_000_000 * p))
                by (nonlinear_arith)
                requires
                    diff - 1_000_000_000 * borrow == da - db - old_borrow,
            ;
        }
        result.push(diff as u64);
        i = i + 1;
    }
    proof {
        lemma_low_value_full(a@, i as int);
        if b@.len() <= a@.len() {
            lemma_low_value_full(b@, i as int);
        } else {
            // limbs of `b` past the length of `a` are zero, since `b <= a < BASE^len(a)`
            lemma_value_split(b@, i as int);
            lemma_value_upper(a@);
            lemma_pow_base_pos(i as nat);
            assert(value_of(b@.skip(i as int)) == 0) by (nonlinear_arith)
                requires
                    pow_base(i as nat) * value_of(b@.skip(i as int)) < pow_base(i as nat),
                    pow_base(i as nat) >= 1,
            ;
        }
        lemma_value_upper(result@);
        if borrow == 1 {
            assert(borrow * pow_base(i as nat) == pow_base(i as nat)) by (nonlinear_arith)
                requires
                    borrow == 1,
            ;
        }
        lemma_zero_times(borrow as int, i as nat);
    }
    trim_zeros(result)
}

/// Schoolbook multiplication on raw digit vectors.
fn schoolbook_digits(a: &[u64], b: &[u64]) -> (r: Vec<u64>)
    requires
        digits_bounded(a@),
        digits_bounded(b@),
    ensures
        canonical(r@),
        value_of(r@) == value_of(a@) * value_of(b@),
{
    let base = BASE;
    let ghost vb = value_of(b@);
    let mut result: Vec<u64> = Vec::new();
    push_zeros(&mut result, a.len());
    push_zeros(&mut result, b.len());
    let rlen = result.len();
    proof {
        assert(value_of(Seq::<u64>::empty()) == 0);
        assert(a@.take(0) =~= Seq::<u64>::empty());
        assert(0 * vb == 0) by (nonlinear_arith);
        lemma_value_upper(b@);
    }
    let mut i: usize = 0;
    while i < a.len()
        invariant
            base == BASE,
            vb == value_of(b@),
            vb < pow_base(b@.len()),
            digits_bounded(a@),
            digits_bounded(b@),
            rlen == a@.len() + b@.len(),
            i <= a@.len(),
            result@.len() == rlen,
            digits_bounded(result@),
            value_of(result@) == value_of(a@.take(i as int)) * vb,
        decreases a@.len() - i,
    {
        let da = a[i];
        let mut carry: u64 = 0;
        let mut j: usize = 0;
        let ghost ti = value_of(a@.take(i as int));
        let ghost t0 = value_of(result@);
        let ghost pi = pow_base(i as nat);
        proof {
            assert(b@.take(0) =~= Seq::<u64>::empty());
            assert(value_of(Seq::<u64>::empty()) == 0);
            assert(value_of(b@.take(0)) == 0);
            assert(i + 0 == i);
            assert(da * 0 * pi == 0) by (nonlinear_arith);
            lemma_zero_times(carry as int, i as nat);
        }
        while j < b.len()
            invariant
                base == BASE,
                digits_bounded(b@),
                i < a@.len(),
                rlen == a@.len() + b@.len(),
                j <= b@.len(),
                result@.len() == rlen,
                digits_bounded(result@),
                da < BASE,
                carry < BASE,
                pi == pow_base(i as nat),
                value_of(result@) + carry * pow_base((i + j) as nat) == t0 + da * value_of(
                    b@.take(j as int),
                ) * pi,
            decreases b@.len() - j,
        {
            let db = b[j];
            let k = i + j;
            let cur = result[k];
            proof {
                assert(da * db <= (1_000_000_000 - 1) * (1_000_000_000 - 1)) by (nonlinear_arith)
                    requires
                        da < 1_000_000_000,
                        db < 1_000_000_000,
                ;
            }
            let prod = cur + da * db + carry;
            proof {
                lemma_carry_update(result@, k as int, prod);
                assert(b@.take(j + 1) =~= b@.take(j as int).push(db));
                lemma_value_push(b@.take(j as int), db);
                lemma_pow_base_add(i as nat, j as nat);
                let p = pow_base(k as nat);
                let pj = pow_base(j as nat);
                let vj = value_of(b@.take(j as int));
                assert(p == pi * pj);
                assert((prod - cur) * p == (da * db) * p + carry * p) by (nonlinear_arith)
                    requires
                        prod == cur + da * db + carry,
                ;
                assert(da * (vj + db * pj) * pi == da * vj * pi + (da * db) * p)
                    by (nonlinear_arith)
                    requires
                        p == pi * pj,
                ;
            }
            result[k] = prod % base;
            carry = prod / base;
            j = j + 1;
        }
        let ghost target = value_of(a@.take(i + 1)) * vb;
        proof {
            assert(b@.take(b@.len() as int) =~= b@);
            assert(a@.take(i + 1) =~= a@.take(i as int).push(da));
            lemma_value_push(a@.take(i as int), da);
            assert((ti + da * pi) * vb == ti * vb + da * vb * pi) by (nonlinear_arith);
            lemma_bounded_subrange(a@, 0, i + 1);
            lemma_value_upper(a@.take(i + 1));
            lemma_pow_base_add((i + 1) as nat, b@.len());
            let x = value_of(a@.take(i + 1));
            let px = pow_base((i + 1) as nat);
            let pb = pow_base(b@.len());
            assert(x * vb < px * pb) by (nonlinear_arith)
                requires
                    x < px,
                    vb < pb,
                    0 <= x,
                    0 <= vb,
            ;
            lemma_pow_base_mono((i + 1 + b@.len()) as nat, rlen as nat);
        }
        let mut k: usize = i + b.len();
        while carry > 0
            invariant
                base == BASE,
                result@.len() == rlen,
                digits_bounded(result@),
                carry < BASE,
                k <= rlen,
                value_of(result@) + carry * pow_base(k as nat) == target,
                target < pow_base(rlen as nat),
            decreases rlen - k,
        {
            proof {
                if k >= rlen {
                    lemma_pow_base_mono(rlen as nat, k as nat);
                    assert(carry * pow_base(k as nat) >= pow_base(k as nat)) by (nonlinear_arith)
                        requires
                            carry >= 1,
                    ;
                }
            }
            let sum = result[k] + carry;
            proof {
                lemma_carry_update(result@, k as int, sum);
                let p = pow_base(k as nat);
                assert((sum - result@[k as int]) * p == carry * p);
            }
            result[k] = sum % base;
            carry = sum / base;
            k = k + 1;
        }
        proof {
            lemma_zero_times(carry as int, k as nat);
        }
        i = i + 1;
    }
    proof {
        assert(a@.take(a@.len() as int) =~= a@);
    }
    trim_zeros(result)
}

/// Adds `src` to `dst` starting at offset `offset`.
fn add_to(dst: &mut [u64], src: &[u64], offset: usize)
    requires
        digits_bounded(old(dst)@),
        digits_bounded(src@),
        offset + src@.len() <= old(dst)@.len(),
        value_of(old(dst)@) + value_of(src@) * pow_base(offset as nat) < pow_base(
            old(dst)@.len(),
        ),
    ensures
        final(dst)@.len() == old(dst)@.len(),
        digits_bounded(final(dst)@),
        value_of(final(dst)@) == value_of(old(dst)@) + value_of(src@) * pow_base(offset as nat),
{
    let base = BASE;
    let mut carry: u64 = 0;
    let mut i: usize = 0;
    let ghost d0 = value_of(dst@);
    let ghost po = pow_base(offset as nat);
    let ghost target = d0 + value_of(src@) * po;
    let dlen = dst.len();
    proof {
        lemma_low_value_zero(src@);
        lemma_zero_times(carry as int, offset as nat);
        assert(0 * po == 0) by (nonlinear_arith);
    }
    while i < src.len()
        invariant
            base == BASE,
            digits_bounded(src@),
            digits_bounded(dst@),
            dst@.len() == old(dst)@.len(),
            dlen == dst@.len(),
            offset + src@.len() <= dst@.len(),
            i <= src@.len(),
            carry <= 1,
            po == pow_base(offset as nat),
            value_of(dst@) + carry * pow_base((offset + i) as nat) == d0 + low_value(
                src@,
                i as int,
            ) * po,
        decreases src@.len() - i,
    {
        let s = src[i];
        let k = offset + i;
        let sum = dst[k] + s + carry;
        proof {
            lemma_carry_update(dst@, k as int, sum);
            lemma_low_value_step(src@, i as int);
            assert(digit_at(src@, i as int) == s);
            lemma_pow_base_add(offset as nat, i as nat);
            let p = pow_base(k as nat);
            let pi = pow_base(i as nat);
            let li = low_value(src@, i as int);
            assert(p == po * pi);
            assert((sum - dst@[k as int]) * p == s * p + carry * p) by (nonlinear_arith)
                requires
                    sum == dst@[k as int] + s + carry,
            ;
            assert((li + s * pi) * po == li * po + s * p) by (nonlinear_arith)
                requires
                    p == po * pi,
            ;
        }
        dst[k] = sum % base;
        carry = sum / base;
        i = i + 1;
    }
    proof {
        lemma_low_value_full(src@, i as int);
    }
    let mut k = offset + src.len();
    while carry > 0 && k < dst.len()
        invariant
            base == BASE,
            digits_bounded(dst@),
            dst@.len() == old(dst)@.len(),
            carry <= 1,
            k <= dst@.len(),
            value_of(dst@) + carry * pow_base(k as nat) == target,
        decreases dst@.len() - k,
    {
        let sum = dst[k] + carry;
        proof {
            lemma_carry_update(dst@, k as int, sum);
            let p = pow_base(k as nat);
            assert((sum - dst@[k as int]) * p == carry * p);
        }
        dst[k] = sum % base;
        carry = sum / base;
        k = k + 1;
    }
    proof {
        if carry > 0 {
            assert(carry * pow_base(k as nat) >= pow_base(k as nat)) by (nonlinear_arith)
                requires
                    carry >= 1,
            ;
        }
        lemma_zero_times(carry as int, k as nat);
    }
}

/// Removes zero most significant digits.
fn trim_zeros(v: Vec<u64>) -> (r: Vec<u64>)
    requires
        digits_bounded(v@),
    ensures
        canonical(r@),
        value_of(r@) == value_of(v@),
        r@.len() <= v@.len(),
{
    let mut v = v;
    let ghost before_trim = v@;
    while v.len() > 0 && v[v.len() - 1] == 0
        invariant
            digits_bounded(v@),
            value_of(v@) == value_of(before_trim),
            v@.len() <= before_trim.len(),
        decreases v@.len(),
    {
        proof {
            lemma_value_drop_zero(v@);
        }
        let ghost before = v@;
        v.pop();
        proof {
            lemma_bounded_subrange(before, 0, before.len() - 1);
        }
    }
    v
}

} // verus!
