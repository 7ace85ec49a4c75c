//! Modular arithmetic operations.
//!
//! Provides modular addition, multiplication, exponentiation (square-and-multiply),
//! and modular inverse via the extended Euclidean algorithm.

use vstd::prelude::*;
use vstd::arithmetic::div_mod::{
    lemma_fundamental_div_mod, lemma_fundamental_div_mod_converse, lemma_mod_bound,
    lemma_mul_mod_noop_general, lemma_small_mod,
};
use vstd::arithmetic::power::{
    lemma_pow0, lemma_pow1, lemma_pow_adds, lemma_pow_mod_noop, lemma_pow_multiplies,
    lemma_square_is_pow2, pow,
};
use crate::bigint::{BigInt, lemma_eq_iff_same_value, lemma_parity, quotient_of, remainder_of};
use crate::primality::{abs, divides, gcd, gcd_spec};

verus! {

/// `a mod m` as [`mod_rem`] computes it: `|a| % |m|`, or `m - (|a| % |m|)` when
/// `a` is negative and the remainder is not zero.
pub open spec fn mod_rem_spec(a: int, m: int) -> int {
    let r = abs(a) % abs(m);
    if a < 0 && r != 0 {
        m - r
    } else {
        r as int
    }
}

/// Adds `m` to a negative residue.
pub open spec fn lift_negative(r: int, m: int) -> int {
    if r < 0 {
        r + m
    } else {
        r
    }
}

/// What [`mod_add`] returns.
pub open spec fn mod_add_spec(a: int, b: int, m: int) -> int {
    lift_negative(mod_rem_spec(a + b, m), m)
}

/// What [`mod_mul`] returns.
pub open spec fn mod_mul_spec(a: int, b: int, m: int) -> int {
    lift_negative(mod_rem_spec(a * b, m), m)
}

/// Square-and-multiply over the binary digits of `e`, least significant first:
/// multiply the accumulator by the base for each set bit, square the base each step.
pub open spec fn square_multiply(acc: int, base: int, e: nat, m: int) -> int
    decreases e,
{
    if e == 0 {
        acc
    } else {
        let next = if e % 2 == 1 {
            mod_mul_spec(acc, base, m)
        } else {
            acc
        };
        square_multiply(next, mod_mul_spec(base, base, m), e / 2, m)
    }
}

/// What [`mod_exp`] returns.
pub open spec fn mod_exp_spec(base: int, exp: int, m: int) -> int {
    if m == 1 {
        0
    } else {
        square_multiply(1, mod_rem_spec(base, m), abs(exp), m)
    }
}

/// For a positive modulus, [`mod_rem`] is the Euclidean remainder.
pub proof fn lemma_mod_rem_spec_positive(a: int, m: int)
    requires
        m > 0,
    ensures
        mod_rem_spec(a, m) == a % m,
        0 <= mod_rem_spec(a, m) < m,
{
    lemma_mod_bound(a, m);
    let x = abs(a) as int;
    lemma_fundamental_div_mod(x, m);
    lemma_mod_bound(x, m);
    let q = x / m;
    let r = x % m;
    if a < 0 {
        if r == 0 {
            assert(a == (-q) * m + 0) by (nonlinear_arith)
                requires
                    x == m * q + r,
                    r == 0,
                    a == -x,
            ;
            lemma_fundamental_div_mod_converse(a, m, -q, 0);
        } else {
            assert(a == (-q - 1) * m + (m - r)) by (nonlinear_arith)
                requires
                    x == m * q + r,
                    a == -x,
            ;
            lemma_fundamental_div_mod_converse(a, m, -q - 1, m - r);
        }
    }
}

/// Computes `a mod m` (remainder), with `a` possibly negative.
pub fn mod_rem(a: &BigInt, m: &BigInt) -> (r: BigInt)
    requires
        a.wf(),
        m.wf(),
        m@ != 0,
    ensures
        r.wf(),
        r@ == mod_rem_spec(a@, m@),
        m@ > 0 ==> r@ == a@ % m@,
{
    let (_, r) = a.abs().div_rem(m);
    proof {
        a.lemma_wf_sign();
        r.lemma_wf_sign();
        if m@ > 0 {
            lemma_mod_rem_spec_positive(a@, m@);
        }
    }
    if a.negative && !r.is_zero() {
        crate::arithmetic::sub(m, &r)
    } else {
        r
    }
}

/// Computes `(a + b) mod m`.
///
/// For a positive modulus the result is in `[0, m)`.
pub fn mod_add(a: &BigInt, b: &BigInt, m: &BigInt) -> (r: BigInt)
    requires
        a.wf(),
        b.wf(),
        m.wf(),
        m@ != 0,
    ensures
        r.wf(),
        r@ == mod_add_spec(a@, b@, m@),
        m@ > 0 ==> r@ == (a@ + b@) % m@,
{
    let sum = crate::arithmetic::add(a, b);
    let result = mod_rem(&sum, m);
    proof {
        result.lemma_wf_sign();
        if m@ > 0 {
            lemma_mod_rem_spec_positive(a@ + b@, m@);
        }
    }
    if result.negative {
        crate::arithmetic::add(&result, m)
    } else {
        result
    }
}

/// Computes `(a * b) mod m`.
///
/// For a positive modulus the result is in `[0, m)`.
pub fn mod_mul(a: &BigInt, b: &BigInt, m: &BigInt) -> (r: BigInt)
    requires
        a.wf(),
        b.wf(),
        m.wf(),
        m@ != 0,
    ensures
        r.wf(),
        r@ == mod_mul_spec(a@, b@, m@),
        m@ > 0 ==> r@ == (a@ * b@) % m@,
{
    let prod = crate::arithmetic::mul(a, b);
    let result = mod_rem(&prod, m);
    proof {
        result.lemma_wf_sign();
        if m@ > 0 {
            lemma_mod_rem_spec_positive(a@ * b@, m@);
        }
    }
    if result.negative {
        crate::arithmetic::add(&result, m)
    } else {
        result
    }
}

/// Computes `base^|exp| mod modulus` using binary exponentiation (square-and-multiply).
///
/// For a positive modulus the result is `base^|exp| mod modulus`, in `[0, modulus)`.
pub fn mod_exp(base: &BigInt, exp: &BigInt, modulus: &BigInt) -> (r: BigInt)
    requires
        base.wf(),
        exp.wf(),
        modulus.wf(),
        modulus@ != 0,
    ensures
        r.wf(),
        r@ == mod_exp_spec(base@, exp@, modulus@),
        modulus@ > 0 ==> r@ == pow(base@, abs(exp@)) % modulus@,
{
    let ghost base0 = base@;
    let ghost exp0 = exp@;
    let one = BigInt::from_u64(1);
    proof {
        lemma_eq_iff_same_value(modulus, &one);
    }
    if *modulus == one {
        proof {
            lemma_small_mod(0, 1);
            assert(pow(base@, abs(exp@)) % 1 == 0);
        }
        return BigInt::zero();
    }
    let base = mod_rem(base, modulus);
    let mut result = BigInt::from_u64(1);
    let mut base = base;
    let mut exp = exp.abs();
    let two = BigInt::from_u64(2);
    let ghost m = modulus@;
    let ghost b0 = base@;
    let ghost e0 = abs(exp@);
    while !exp.is_zero()
        invariant
            modulus.wf(),
            modulus@ == m,
            m != 0,
            two.wf(),
            two@ == 2,
            result.wf(),
            base.wf(),
            exp.wf(),
            exp@ >= 0,
            square_multiply(result@, base@, exp@ as nat, m) == square_multiply(1, b0, e0, m),
        decreases exp@,
    {
        proof {
            exp.lemma_wf_sign();
            lemma_parity(&exp);
        }
        if exp.digits[0] % 2 == 1 {
            result = mod_mul(&result, &base, modulus);
        }
        base = mod_mul(&base, &base, modulus);
        let (half, _) = exp.div_rem(&two);
        proof {
            assert(half@ == exp@ / 2);
        }
        exp = half;
    }
    proof {
        if m > 0 {
            lemma_mod_rem_spec_positive(base0, m);
            lemma_square_multiply(1, b0, e0, m);
            lemma_pow_mod_noop(base0, e0, m);
            assert(1 * pow(b0, e0) == pow(b0, e0));
        }
    }
    result
}

/// For a positive modulus, square-and-multiply computes `acc * base^e mod m`.
pub proof fn lemma_square_multiply(acc: int, base: int, e: nat, m: int)
    requires
        m > 0,
        0 <= acc < m,
    ensures
        square_multiply(acc, base, e, m) == (acc * pow(base, e)) % m,
    decreases e,
{
    if e == 0 {
        lemma_pow0(base);
        lemma_small_mod(acc as nat, m as nat);
    } else {
        let h = e / 2;
        let next = if e % 2 == 1 {
            mod_mul_spec(acc, base, m)
        } else {
            acc
        };
        let b2 = mod_mul_spec(base, base, m);
        lemma_mod_rem_spec_positive(acc * base, m);
        lemma_mod_rem_spec_positive(base * base, m);
        lemma_square_multiply(next, b2, h, m);
        // b2^h ≡ (base^2)^h = base^(2h)
        lemma_pow_mod_noop(base * base, h, m);
        lemma_square_is_pow2(base);
        lemma_pow_multiplies(base, 2, h);
        let p2h = pow(base, 2 * h);
        assert(pow(b2, h) % m == p2h % m);
        lemma_mul_mod_noop_general(next, pow(b2, h), m);
        lemma_mul_mod_noop_general(next, p2h, m);
        assert((next * pow(b2, h)) % m == (next * p2h) % m);
        if e % 2 == 1 {
            lemma_pow_adds(base, 2 * h, 1);
            lemma_pow1(base);
            assert(e == 2 * h + 1);
            lemma_mul_mod_noop_general(acc * base, p2h, m);
            assert((acc * base) * p2h == acc * (p2h * base)) by (nonlinear_arith);
        } else {
            assert(e == 2 * h);
        }
    }
}

/// The Bezout coefficient of the first argument that the extended Euclidean
/// algorithm of [`mod_inverse`] reaches from the state `(old_r, r, old_s, s)`,
/// dividing with [`BigInt::div_rem`].
pub open spec fn ext_euclid(old_r: int, r: int, old_s: int, s: int) -> int
    decreases abs(r),
{
    if r == 0 {
        old_s
    } else {
        proof {
            lemma_mod_bound(abs(old_r) as int, abs(r) as int);
        }
        ext_euclid(r, remainder_of(old_r, r), s, old_s - quotient_of(old_r, r) * s)
    }
}

/// What [`mod_inverse`] returns.
pub open spec fn mod_inverse_spec(a: int, m: int) -> Option<int> {
    let a1 = mod_rem_spec(a, m);
    if gcd_spec(abs(a1), abs(m)) != 1 {
        None
    } else {
        let s = ext_euclid(a1, m, 1, 0);
        Some(lift_negative(s, m))
    }
}

/// Computes the modular inverse of `a` modulo `m`, i.e. finds `x` such that `a*x ≡ 1 (mod m)`.
///
/// Returns `None` if `a` and `m` are not coprime. For a positive modulus the
/// inverse returned is the one in `[0, m)`.
pub fn mod_inverse(a: &BigInt, m: &BigInt) -> (r: Option<BigInt>)
    requires
        a.wf(),
        m.wf(),
        m@ != 0,
    ensures
        match r {
            Some(x) => x.wf() && mod_inverse_spec(a@, m@) == Some(x@),
            None => mod_inverse_spec(a@, m@) is None,
        },
        m@ > 0 ==> (r is Some <==> gcd_spec((a@ % m@) as nat, m@ as nat) == 1),
        m@ > 0 ==> match r {
            Some(x) => 0 <= x@ < m@ && (a@ * x@) % m@ == 1int % m@,
            None => true,
        },
{
    let a_in = a;
    let a = mod_rem(a, m);
    let one = BigInt::from_u64(1);
    let g = gcd(&a, m);
    proof {
        lemma_eq_iff_same_value(&g, &one);
    }
    if g != one {
        proof {
            if m@ > 0 {
                lemma_mod_rem_spec_positive(a_in@, m@);
            }
        }
        return None;
    }
    // Extended Euclidean algorithm
    let (mut old_r, mut r) = (a.copy(), m.copy());
    let (mut old_s, mut s) = (BigInt::from_u64(1), BigInt::zero());
    let ghost start = ext_euclid(a@, m@, 1, 0);
    while !r.is_zero()
        invariant
            old_r.wf(),
            r.wf(),
            old_s.wf(),
            s.wf(),
            ext_euclid(old_r@, r@, old_s@, s@) == start,
        decreases abs(r@),
    {
        let (q, rem) = old_r.div_rem(&r);
        proof {
            lemma_mod_bound(abs(old_r@) as int, abs(r@) as int);
        }
        old_r = r;
        r = rem;
        let qs = crate::arithmetic::mul(&q, &s);
        let new_s = crate::arithmetic::sub(&old_s, &qs);
        old_s = s;
        s = new_s;
    }
    let mut result = old_s;
    if result.is_negative() {
        result = crate::arithmetic::add(&result, m);
    }
    proof {
        if m@ > 0 {
            lemma_mod_rem_spec_positive(a_in@, m@);
            lemma_inverse_correct(a_in@, m@);
        }
    }
    Some(result)
}

/// For a positive modulus, the result of [`mod_inverse_spec`] is present exactly
/// when `gcd(a mod m, m) = 1`, and is then the inverse of `a` in `[0, m)`.
pub proof fn lemma_inverse_correct(a: int, m: int)
    requires
        m > 0,
    ensures
        mod_inverse_spec(a, m) is Some <==> gcd_spec((a % m) as nat, m as nat) == 1,
        match mod_inverse_spec(a, m) {
            Some(x) => 0 <= x < m && (a * x) % m == 1int % m,
            None => true,
        },
{
    lemma_mod_rem_spec_positive(a, m);
    let a1 = a % m;
    if gcd_spec(a1 as nat, m as nat) == 1 {
        // the first division leaves (m, a1, 0, 1)
        lemma_small_mod(a1 as nat, m as nat);
        vstd::arithmetic::div_mod::lemma_basic_div(a1, m);
        assert(remainder_of(a1, m) == a1);
        assert(quotient_of(a1, m) == 0);
        assert(ext_euclid(a1, m, 1, 0) == ext_euclid(m, a1, 0, 1));
        assert(gcd_spec(m as nat, a1 as nat) == 1) by {
            assert(gcd_spec(a1 as nat, m as nat) == gcd_spec(m as nat, (a1 % m) as nat));
        }
        assert(divides(m, a1 * 0 - m)) by {
            assert(m * (-1) == a1 * 0 - m);
        }
        assert(divides(m, a1 * 1 - a1)) by {
            assert(m * 0 == a1 * 1 - a1);
        }
        assert(abs(1) * m + abs(0) * a1 == m) by (nonlinear_arith)
            requires
                abs(1) == 1,
                abs(0) == 0,
        ;
        lemma_bezout_bound(a1, m, m, a1, 0, 1);
        let t = ext_euclid(m, a1, 0, 1);
        let x = lift_negative(t, m);
        let k = choose|k: int| #[trigger] (m * k) == a1 * t - 1;
        // x = t or t + m, so a1 * x - 1 is a multiple of m
        let k2 = if t < 0 {
            k + a1
        } else {
            k
        };
        assert(m * k2 == a1 * x - 1) by (nonlinear_arith)
            requires
                m * k == a1 * t - 1,
                x == if t < 0 { t + m } else { t },
                k2 == if t < 0 { k + a1 } else { k },
        ;
        // a ≡ a1, so a * x - 1 is a multiple of m too
        lemma_fundamental_div_mod(a, m);
        let qa = a / m;
        assert(a * x - 1 == m * (k2 + qa * x)) by (nonlinear_arith)
            requires
                m * k2 == a1 * x - 1,
                a == m * qa + a1,
        ;
        vstd::arithmetic::div_mod::lemma_mod_multiples_vanish(k2 + qa * x, 1, m);
        assert(a * x == m * (k2 + qa * x) + 1);
    }
}

/// The invariant of the extended Euclidean algorithm on nonnegative values: the
/// Bezout coefficient it reaches lies strictly between `-m` and `m` and is an
/// inverse of `a1` modulo `m`.
proof fn lemma_bezout_bound(a1: int, m: int, old_r: int, r: int, old_s: int, s: int)
    requires
        m >= 1,
        0 <= r < old_r,
        gcd_spec(old_r as nat, r as nat) == 1,
        divides(m, a1 * old_s - old_r),
        divides(m, a1 * s - r),
        abs(s) * old_r + abs(old_s) * r == m,
        s * old_s <= 0,
        abs(old_s) < m,
    ensures
        -m < ext_euclid(old_r, r, old_s, s) < m,
        divides(m, a1 * ext_euclid(old_r, r, old_s, s) - 1),
    decreases r,
{
    if r == 0 {
        assert(gcd_spec(old_r as nat, 0) == old_r);
    } else {
        lemma_fundamental_div_mod(old_r, r);
        lemma_mod_bound(old_r, r);
        let q = old_r / r;
        let rem = old_r % r;
        vstd::arithmetic::div_mod::lemma_div_pos_is_pos(old_r, r);
        assert(remainder_of(old_r, r) == rem);
        assert(quotient_of(old_r, r) == q);
        let new_s = old_s - q * s;
        assert(ext_euclid(old_r, r, old_s, s) == ext_euclid(r, rem, s, new_s));
        assert(gcd_spec(r as nat, rem as nat) == 1) by {
            assert(gcd_spec(old_r as nat, r as nat) == gcd_spec(r as nat, (old_r % r) as nat));
        }
        let k1 = choose|k: int| #[trigger] (m * k) == a1 * old_s - old_r;
        let k2 = choose|k: int| #[trigger] (m * k) == a1 * s - r;
        assert(a1 * new_s == a1 * old_s - q * (a1 * s)) by (nonlinear_arith)
            requires
                new_s == old_s - q * s,
        ;
        assert(q * (a1 * s - r) == q * (m * k2)) by (nonlinear_arith)
            requires
                m * k2 == a1 * s - r,
        ;
        assert(q * (a1 * s - r) == q * (a1 * s) - r * q) by (nonlinear_arith);
        assert(m * (k1 - q * k2) == m * k1 - q * (m * k2)) by (nonlinear_arith);
        assert(m * (k1 - q * k2) == a1 * new_s - rem);
        assert(q >= 1) by (nonlinear_arith)
            requires
                old_r == r * q + rem,
                rem < r,
                r < old_r,
                q >= 0,
        ;
        assert(abs(new_s) == abs(old_s) + q * abs(s)) by (nonlinear_arith)
            requires
                s * old_s <= 0,
                q >= 0,
                new_s == old_s - q * s,
        ;
        assert(abs(new_s) * r + abs(s) * rem == m) by (nonlinear_arith)
            requires
                abs(new_s) == abs(old_s) + q * abs(s),
                abs(s) * old_r + abs(old_s) * r == m,
                old_r == r * q + rem,
        ;
        assert(s * new_s <= 0) by (nonlinear_arith)
            requires
                s * old_s <= 0,
                q >= 0,
                new_s == old_s - q * s,
        ;
        assert(abs(s) < m) by (nonlinear_arith)
            requires
                abs(s) * old_r + abs(old_s) * r == m,
                old_r >= 2,
                r >= 1,
                m >= 1,
        ;
        lemma_bezout_bound(a1, m, r, rem, s, new_s);
    }
}

} // verus!
