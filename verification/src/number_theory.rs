//! Facts about primes behind the Miller-Rabin test: Euclid's lemma, Fermat's
//! little theorem and the square roots of one modulo a prime.

use vstd::prelude::*;
use vstd::arithmetic::div_mod::{
    lemma_fundamental_div_mod, lemma_mod_bound, lemma_mod_multiples_basic,
    lemma_mul_mod_noop_general, lemma_small_mod,
};
use vstd::arithmetic::power::{lemma_pow0, lemma_pow1, lemma_pow_adds, pow};
use crate::modular::{lemma_inverse_correct, mod_inverse_spec};
use crate::primality::{divides, gcd_spec, lemma_gcd_divides, lemma_gcd_zero};

verus! {

/// `n` is prime: at least two, and no number strictly between one and `n` divides it.
pub open spec fn is_prime(n: int) -> bool {
    n >= 2 && forall|d: int| 2 <= d < n ==> #[trigger] (n % d) != 0
}

/// For a positive `d`, divisibility is a zero remainder.
pub proof fn lemma_divides_mod(d: int, x: int)
    requires
        d > 0,
    ensures
        divides(d, x) == (x % d == 0),
{
    lemma_fundamental_div_mod(x, d);
    if x % d == 0 {
        assert(d * (x / d) == x);
    }
    if divides(d, x) {
        let k = choose|k: int| #[trigger] (d * k) == x;
        lemma_mod_multiples_basic(k, d);
        assert(k * d == x) by (nonlinear_arith)
            requires
                d * k == x,
        ;
    }
}

/// A positive divisor of a positive number is no larger than it.
proof fn lemma_divisor_le(d: int, x: int)
    requires
        d > 0,
        x > 0,
        divides(d, x),
    ensures
        d <= x,
{
    let k = choose|k: int| #[trigger] (d * k) == x;
    assert(d <= x) by (nonlinear_arith)
        requires
            d * k == x,
            d > 0,
            x > 0,
    ;
}

/// A number that is not a multiple of the prime `p` is coprime to it.
proof fn lemma_coprime_to_prime(a: int, p: int)
    requires
        is_prime(p),
        (a as int) % p != 0,
    ensures
        gcd_spec((a % p) as nat, p as nat) == 1,
{
    lemma_mod_bound(a, p);
    let r = (a % p) as nat;
    let g = gcd_spec(r, p as nat);
    lemma_gcd_divides(r, p as nat);
    lemma_gcd_zero(r, p as nat);
    lemma_divisor_le(g as int, r as int);
    if g >= 2 {
        lemma_divides_mod(g as int, p);
        assert(p % (g as int) != 0);
    }
}

/// Euclid's lemma: a prime dividing a product divides one of the factors.
pub proof fn lemma_euclid(p: int, a: int, b: int)
    requires
        is_prime(p),
        (a * b) % p == 0,
    ensures
        a % p == 0 || b % p == 0,
{
    if a % p != 0 {
        lemma_coprime_to_prime(a, p);
        lemma_inverse_correct(a, p);
        let x = mod_inverse_spec(a, p)->Some_0;
        lemma_small_mod(1, p as nat);
        assert((a * x) % p == 1);
        // b = b * 1 ≡ b * (a * x) = (a * b) * x ≡ 0
        lemma_mul_mod_noop_general(a * b, x, p);
        assert(((a * b) % p) * x == 0);
        lemma_small_mod(0, p as nat);
        assert(((a * b) * x) % p == 0);
        assert((a * b) * x == (a * x) * b) by (nonlinear_arith);
        lemma_mul_mod_noop_general(a * x, b, p);
        assert(1 * b == b);
    }
}

/// Binomial coefficients by Pascal's rule.
pub open spec fn binom(n: nat, k: nat) -> nat
    decreases n,
{
    if k == 0 {
        1
    } else if n == 0 {
        0
    } else {
        binom((n - 1) as nat, (k - 1) as nat) + binom((n - 1) as nat, k)
    }
}

/// `sum_{i <= j} binom(n, i) * x^i`.
pub open spec fn binom_sum(n: nat, x: int, j: nat) -> int
    decreases j,
{
    if j == 0 {
        1
    } else {
        binom_sum(n, x, (j - 1) as nat) + binom(n, j) * pow(x, j)
    }
}

proof fn lemma_binom_above(n: nat, k: nat)
    requires
        k > n,
    ensures
        binom(n, k) == 0,
    decreases n,
{
    if n > 0 {
        lemma_binom_above((n - 1) as nat, (k - 1) as nat);
        lemma_binom_above((n - 1) as nat, k);
    }
}

proof fn lemma_binom_diag(n: nat)
    ensures
        binom(n, n) == 1,
    decreases n,
{
    if n > 0 {
        lemma_binom_diag((n - 1) as nat);
        lemma_binom_above((n - 1) as nat, n);
    }
}

proof fn lemma_binom_one(n: nat)
    ensures
        binom(n, 1) == n,
    decreases n,
{
    if n > 0 {
        lemma_binom_one((n - 1) as nat);
        assert(binom(n, 1) == binom((n - 1) as nat, 0) + binom((n - 1) as nat, 1));
        assert(binom((n - 1) as nat, 0) == 1);
    }
}

/// Absorption: `k * binom(n, k) == n * binom(n - 1, k - 1)`.
proof fn lemma_binom_absorb(n: nat, k: nat)
    requires
        n >= 1,
        k >= 1,
    ensures
        k * binom(n, k) == n * binom((n - 1) as nat, (k - 1) as nat),
    decreases n, k,
{
    if k == 1 {
        lemma_binom_one(n);
        assert(binom((n - 1) as nat, 0) == 1);
    } else if n == 1 {
        lemma_binom_above(1, k);
        lemma_binom_above(0, (k - 1) as nat);
    } else {
        // k C(n,k) = k C(n-1,k) + k C(n-1,k-1)
        let a = binom((n - 1) as nat, k);
        let b = binom((n - 1) as nat, (k - 1) as nat);
        let c = binom((n - 2) as nat, (k - 1) as nat);
        let d = binom((n - 2) as nat, (k - 2) as nat);
        assert(binom(n, k) == b + a);
        lemma_binom_absorb((n - 1) as nat, k);
        lemma_binom_absorb((n - 1) as nat, (k - 1) as nat);
        assert(k * a == (n - 1) * c);
        assert((k - 1) * b == (n - 1) * d);
        assert(b == d + c);
        assert(k * (b + a) == n * b) by (nonlinear_arith)
            requires
                k * a == (n - 1) * c,
                (k - 1) * b == (n - 1) * d,
                b == d + c,
        ;
    }
}

/// One step of the binomial theorem: `S(n+1, j) = S(n, j) + x * S(n, j-1)`.
proof fn lemma_binom_sum_step(n: nat, x: int, j: nat)
    requires
        j >= 1,
    ensures
        binom_sum(n + 1, x, j) == binom_sum(n, x, j) + x * binom_sum(n, x, (j - 1) as nat),
    decreases j,
{
    lemma_pow_adds(x, 1, (j - 1) as nat);
    lemma_pow1(x);
    let pj = pow(x, j);
    let pj1 = pow(x, (j - 1) as nat);
    assert(pj == x * pj1);
    assert(binom(n + 1, j) == binom(n, (j - 1) as nat) + binom(n, j));
    assert(binom_sum(n + 1, x, j) == binom_sum(n + 1, x, (j - 1) as nat) + binom(n + 1, j) * pj);
    assert(binom_sum(n, x, j) == binom_sum(n, x, (j - 1) as nat) + binom(n, j) * pj);
    if j == 1 {
        lemma_pow0(x);
        assert(binom_sum(n, x, 0) == 1);
        assert(binom_sum(n + 1, x, 0) == 1);
        assert((j - 1) as nat == 0);
        assert(binom(n, 0) == 1);
        assert((binom(n, 0) + binom(n, 1)) * pj == pj + binom(n, 1) * pj) by (nonlinear_arith)
            requires
                binom(n, 0) == 1,
        ;
        assert(x * 1 == pj) by (nonlinear_arith)
            requires
                pj == x * pj1,
                pj1 == 1,
        ;
    } else {
        lemma_binom_sum_step(n, x, (j - 1) as nat);
        assert(((j - 1) - 1) as nat == (j - 2) as nat);
        let c0 = binom(n, (j - 1) as nat);
        let c1 = binom(n, j);
        let s2 = binom_sum(n, x, (j - 2) as nat);
        assert(binom_sum(n, x, (j - 1) as nat) == s2 + c0 * pj1);
        assert((c0 + c1) * pj == c1 * pj + x * (c0 * pj1)) by (nonlinear_arith)
            requires
                pj == x * pj1,
        ;
        assert(x * (s2 + c0 * pj1) == x * s2 + x * (c0 * pj1)) by (nonlinear_arith);
    }
}

/// The binomial theorem for `(x + 1)^n`.
pub proof fn lemma_binomial_theorem(n: nat, x: int)
    ensures
        binom_sum(n, x, n) == pow(x + 1, n),
    decreases n,
{
    if n == 0 {
        lemma_pow0(x + 1);
    } else {
        let m = (n - 1) as nat;
        lemma_binomial_theorem(m, x);
        lemma_binom_sum_step(m, x, n);
        lemma_binom_above(m, n);
        assert(binom_sum(m, x, n) == binom_sum(m, x, m) + 0 * pow(x, n));
        assert(0 * pow(x, n) == 0);
        lemma_pow_adds(x + 1, 1, m);
        lemma_pow1(x + 1);
        let q = pow(x + 1, m);
        assert(q + x * q == (x + 1) * q) by (nonlinear_arith);
    }
}

/// The middle binomial coefficients of a prime are multiples of it.
proof fn lemma_prime_divides_binom(p: int, k: nat)
    requires
        is_prime(p),
        0 < k < p,
    ensures
        (binom(p as nat, k) as int) % p == 0,
{
    lemma_binom_absorb(p as nat, k);
    let c = binom(p as nat, k) as int;
    let e = binom((p - 1) as nat, (k - 1) as nat) as int;
    assert(k * c == p * e);
    lemma_mod_multiples_basic(e, p);
    assert(e * p == p * e) by (nonlinear_arith);
    assert((k * c) % p == 0);
    lemma_euclid(p, k as int, c);
    lemma_small_mod(k, p as nat);
}

/// All terms of `S(p, j)` past the first are multiples of `p` while `j < p`.
proof fn lemma_binom_sum_mod_prime(p: int, x: int, j: nat)
    requires
        is_prime(p),
        j < p,
    ensures
        divides(p, binom_sum(p as nat, x, j) - 1),
    decreases j,
{
    if j == 0 {
        assert(p * 0 == 0);
    } else {
        lemma_binom_sum_mod_prime(p, x, (j - 1) as nat);
        lemma_prime_divides_binom(p, j);
        let c = binom(p as nat, j) as int;
        lemma_divides_mod(p, c);
        let k1 = choose|k: int| #[trigger] (p * k) == binom_sum(p as nat, x, (j - 1) as nat) - 1;
        let k2 = choose|k: int| #[trigger] (p * k) == c;
        let w = pow(x, j);
        assert(p * (k1 + k2 * w) == binom_sum(p as nat, x, (j - 1) as nat) - 1 + c * w)
            by (nonlinear_arith)
            requires
                p * k1 == binom_sum(p as nat, x, (j - 1) as nat) - 1,
                p * k2 == c,
        ;
    }
}

/// `x^p ≡ x (mod p)` for a prime `p` and `x >= 0`.
pub proof fn lemma_fermat_power(p: int, x: nat)
    requires
        is_prime(p),
    ensures
        divides(p, pow(x as int, p as nat) - x),
    decreases x,
{
    let n = p as nat;
    if x == 0 {
        lemma_pow_adds(0, 1, (n - 1) as nat);
        lemma_pow1(0);
        assert(pow(0, n) == 0 * pow(0, (n - 1) as nat));
        assert(p * 0 == 0);
    } else {
        let y = (x - 1) as nat;
        lemma_fermat_power(p, y);
        // (y + 1)^p = S(p, p) = S(p, p - 1) + y^p
        lemma_binomial_theorem(n, y as int);
        lemma_binom_diag(n);
        assert(binom_sum(n, y as int, n) == binom_sum(n, y as int, (n - 1) as nat) + 1 * pow(
            y as int,
            n,
        ));
        lemma_binom_sum_mod_prime(p, y as int, (n - 1) as nat);
        let k1 = choose|k: int| #[trigger] (p * k) == binom_sum(n, y as int, (n - 1) as nat) - 1;
        let k2 = choose|k: int| #[trigger] (p * k) == pow(y as int, n) - y;
        assert(p * (k1 + k2) == p * k1 + p * k2) by (nonlinear_arith);
        assert(p * (k1 + k2) == pow(x as int, n) - x);
    }
}

/// Fermat's little theorem: `a^(p-1) ≡ 1 (mod p)` when the prime `p` does not divide `a`.
pub proof fn lemma_fermat_little(p: int, a: nat)
    requires
        is_prime(p),
        (a as int) % p != 0,
    ensures
        pow(a as int, (p - 1) as nat) % p == 1,
{
    let n = p as nat;
    lemma_fermat_power(p, a);
    lemma_pow_adds(a as int, 1, (n - 1) as nat);
    lemma_pow1(a as int);
    let q = pow(a as int, (n - 1) as nat);
    let k = choose|k: int| #[trigger] (p * k) == pow(a as int, n) - a;
    // a * (q - 1) is a multiple of p, and a is not
    assert(a * (q - 1) == p * k) by (nonlinear_arith)
        requires
            pow(a as int, n) == a * q,
            p * k == pow(a as int, n) - a,
    ;
    lemma_divides_mod(p, a * (q - 1));
    assert(divides(p, a * (q - 1)));
    lemma_euclid(p, a as int, q - 1);
    lemma_fundamental_div_mod(q - 1, p);
    lemma_mod_bound(q, p);
    lemma_fundamental_div_mod(q, p);
    // q - 1 = p * t, so q % p == 1
    let t = (q - 1) / p;
    assert(q == p * t + 1);
    vstd::arithmetic::div_mod::lemma_mod_multiples_vanish(t, 1, p);
    lemma_small_mod(1, p as nat);
}

/// The square roots of one modulo a prime are `1` and `p - 1`.
pub proof fn lemma_square_root_of_one(p: int, x: int)
    requires
        is_prime(p),
        0 <= x < p,
        (x * x) % p == 1,
    ensures
        x == 1 || x == p - 1,
{
    lemma_fundamental_div_mod(x * x, p);
    let t = (x * x) / p;
    assert((x - 1) * (x + 1) == p * t) by (nonlinear_arith)
        requires
            x * x == p * t + 1,
    ;
    lemma_mod_multiples_basic(t, p);
    assert(t * p == p * t) by (nonlinear_arith);
    lemma_euclid(p, x - 1, x + 1);
    if (x - 1) % p == 0 {
        if x == 0 {
            lemma_small_mod((p - 1) as nat, p as nat);
            assert((-1) % p == p - 1) by {
                vstd::arithmetic::div_mod::lemma_mod_multiples_vanish(-1, p - 1, p);
            }
        } else {
            lemma_small_mod((x - 1) as nat, p as nat);
        }
    } else if x + 1 < p {
        lemma_small_mod((x + 1) as nat, p as nat);
    }
}

} // verus!
