//! Addition, subtraction, and multiplication for [`BigInt`](crate::BigInt).
//!
//! Implements schoolbook algorithms. For large multiplication,
//! see the [`karatsuba`](crate::karatsuba) module.

use std::cmp::Ordering;
use vstd::prelude::*;
use crate::bigint::BigInt;
use crate::digits::{
    BASE, canonical, digit_at, digits_bounded, lemma_digit_order, lemma_low_value_full,
    lemma_low_value_step, lemma_low_value_zero, lemma_value_push, low_value, pow_base, value_of,
};

verus! {

/// How many of two integers are negative; it bounds the recursion between
/// [`add`] and [`sub`].
pub open spec fn negatives(x: int, y: int) -> nat {
    (if x < 0 {
        1nat
    } else {
        0nat
    }) + (if y < 0 {
        1nat
    } else {
        0nat
    })
}

/// Adds two `BigInt` values.
pub fn add(a: &BigInt, b: &BigInt) -> (r: BigInt)
    requires
        a.wf(),
        b.wf(),
    ensures
        r.wf(),
        r@ == a@ + b@,
    decreases negatives(a@, b@),
{
    proof {
        a.lemma_wf_sign();
        b.lemma_wf_sign();
    }
    match (a.negative, b.negative) {
        (false, false) => add_abs(a, b),
        (true, true) => {
            let mut r = add_abs(a, b);
            proof {
                r.lemma_wf_sign();
            }
            r.negative = true;
            r
        },
        (false, true) => self::sub(a, &b.abs()),
        (true, false) => self::sub(b, &a.abs()),
    }
}

/// Subtracts `b` from `a`.
pub fn sub(a: &BigInt, b: &BigInt) -> (r: BigInt)
    requires
        a.wf(),
        b.wf(),
    ensures
        r.wf(),
        r@ == a@ - b@,
    decreases negatives(a@, b@),
{
    proof {
        a.lemma_wf_sign();
        b.lemma_wf_sign();
    }
    match (a.negative, b.negative) {
        (false, false) => {
            proof {
                lemma_digit_order(a.limbs(), b.limbs());
            }
            match a.abs_cmp(b) {
                Ordering::Equal => BigInt::zero(),
                Ordering::Greater => a.abs_sub(b),
                Ordering::Less => {
                    let mut r = b.abs_sub(a);
                    proof {
                        r.lemma_wf_sign();
                    }
                    r.negative = true;
                    r
                },
            }
        },
        (true, true) => self::sub(&b.abs(), &a.abs()),
        (false, true) => self::add(a, &b.abs()),
        (true, false) => {
            let mut r = self::add(&a.abs(), b);
            proof {
                r.lemma_wf_sign();
            }
            r.negative = true;
            r
        },
    }
}

/// Multiplies two `BigInt` values using schoolbook algorithm.
pub fn mul(a: &BigInt, b: &BigInt) -> (r: BigInt)
    requires
        a.wf(),
        b.wf(),
    ensures
        r.wf(),
        r@ == a@ * b@,
{
    a.schoolbook_mul(b)
}

/// Adds the absolute values of two `BigInt` values.
fn add_abs(a: &BigInt, b: &BigInt) -> (r: BigInt)
    requires
        canonical(a.limbs()),
        canonical(b.limbs()),
    ensures
        r.wf(),
        r@ == a.magnitude() + b.magnitude(),
{
    let max_len = a.digits.len().max(b.digits.len());
    let mut result: Vec<u64> = Vec::new();
    let mut carry: u64 = 0;
    let mut i: usize = 0;
    let ghost sa = a.limbs();
    let ghost sb = b.limbs();
    proof {
        lemma_low_value_zero(sa);
        lemma_low_value_zero(sb);
        assert(value_of(Seq::<u64>::empty()) == 0);
    }
    while i < max_len
        invariant
            sa == a.limbs(),
            sb == b.limbs(),
            canonical(sa),
            canonical(sb),
            max_len == if sa.len() >= sb.len() { sa.len() } else { sb.len() },
            i <= max_len,
            result@.len() == i,
            digits_bounded(result@),
            carry <= 1,
            value_of(result@) + carry * pow_base(i as nat) == low_value(sa, i as int) + low_value(
                sb,
                i as int,
            ),
        decreases max_len - i,
    {
        let da = if i < a.digits.len() {
            a.digits[i]
        } else {
            0
        };
        let db = if i < b.digits.len() {
            b.digits[i]
        } else {
            0
        };
        let sum = da + db + carry;
        let ghost old_result = result@;
        result.push(sum % BASE);
        proof {
            lemma_value_push(old_result, sum % BASE);
            lemma_low_value_step(sa, i as int);
            lemma_low_value_step(sb, i as int);
            assert(digit_at(sa, i as int) == da);
            assert(digit_at(sb, i as int) == db);
            let p = pow_base(i as nat);
            let q = sum / BASE;
            assert(pow_base((i + 1) as nat) == 1_000_000_000 * p);
            assert(sum == 1_000_000_000 * q + sum % BASE);
            assert(sum * p == (sum % BASE) * p + q * (1_000_000_000 * p)) by (nonlinear_arith)
                requires
                    sum == 1_000_000_000 * q + sum % BASE,
            ;
            assert(sum * p == da * p + db * p + carry * p) by (nonlinear_arith)
                requires
                    sum == da + db + carry,
            ;
        }
        carry = sum / BASE;
        i = i + 1;
    }
    proof {
        lemma_low_value_full(sa, i as int);
        lemma_low_value_full(sb, i as int);
    }
    if carry > 0 {
        proof {
            lemma_value_push(result@, carry);
        }
        result.push(carry);
    } else {
        proof {
            assert(carry * pow_base(i as nat) == 0) by (nonlinear_arith)
                requires
                    carry == 0,
            ;
        }
    }
    let mut r = BigInt { digits: result, negative: false };
    r.normalize();
    r
}

} // verus!
