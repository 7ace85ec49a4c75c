//! Primality testing and GCD computation.
//!
//! Implements the Euclidean algorithm for GCD and the Miller-Rabin
//! probabilistic primality test with configurable rounds.

use vstd::prelude::*;
use vstd::arithmetic::div_mod::{
    lemma_fundamental_div_mod, lemma_mod_bound, lemma_mul_mod_noop_general, lemma_small_mod,
};
use vstd::arithmetic::power::{lemma_pow_adds, lemma_square_is_pow2, pow};
use vstd::arithmetic::power2::{
    lemma2_to64, lemma_pow2_adds, lemma_pow2_pos, lemma_pow2_strictly_increases, pow2,
};
use crate::bigint::{
    BigInt, lemma_eq_iff_same_value, lemma_order_matches_integers, lemma_parity, remainder_of,
};
use crate::digits::{canonical, idx, ix, lemma_value_upper, pow_base, value_of};
use crate::modular::mod_exp;
use crate::number_theory::{is_prime, lemma_fermat_little, lemma_square_root_of_one};

verus! {

/// The greatest common divisor by Euclid's recursion: `gcd(a, 0) = a`,
/// `gcd(a, b) = gcd(b, a % b)`.
pub open spec fn gcd_spec(a: nat, b: nat) -> nat
    decreases b,
{
    if b == 0 {
        a
    } else {
        gcd_spec(b, a % b)
    }
}

/// Absolute value.
pub open spec fn abs(x: int) -> nat {
    if x < 0 {
        (-x) as nat
    } else {
        x as nat
    }
}

/// `d` divides `x`.
pub open spec fn divides(d: int, x: int) -> bool {
    exists|k: int| #[trigger] (d * k) == x
}

/// Computes the greatest common divisor of `a` and `b` using the Euclidean algorithm.
pub fn gcd(a: &BigInt, b: &BigInt) -> (r: BigInt)
    requires
        a.wf(),
        b.wf(),
    ensures
        r.wf(),
        r@ == gcd_spec(abs(a@), abs(b@)),
{
    let mut a = a.abs();
    let mut b = b.abs();
    let ghost target = gcd_spec(a@ as nat, b@ as nat);
    while !b.is_zero()
        invariant
            a.wf(),
            b.wf(),
            a@ >= 0,
            b@ >= 0,
            gcd_spec(a@ as nat, b@ as nat) == target,
        decreases b@,
    {
        let (_, r) = a.div_rem(&b);
        proof {
            lemma_mod_bound(a@, b@);
            assert(r@ == remainder_of(a@, b@));
        }
        a = b;
        b = r;
    }
    a
}

/// `gcd_spec(a, b)` divides both `a` and `b`.
pub proof fn lemma_gcd_divides(a: nat, b: nat)
    ensures
        divides(gcd_spec(a, b) as int, a as int),
        divides(gcd_spec(a, b) as int, b as int),
    decreases b,
{
    let g = gcd_spec(a, b) as int;
    if b == 0 {
        assert(g * 1 == a);
        assert(g * 0 == 0);
    } else {
        lemma_gcd_divides(b, a % b);
        let kb = choose|k: int| #[trigger] (g * k) == b as int;
        let kr = choose|k: int| #[trigger] (g * k) == (a % b) as int;
        lemma_fundamental_div_mod(a as int, b as int);
        let q = (a / b) as int;
        assert(g * (kb * q + kr) == a) by (nonlinear_arith)
            requires
                g * kb == b,
                g * kr == a % b,
                a == b * q + a % b,
        ;
    }
}

/// Every common divisor of `a` and `b` divides `gcd_spec(a, b)`.
pub proof fn lemma_gcd_greatest(a: nat, b: nat, d: int)
    requires
        divides(d, a as int),
        divides(d, b as int),
    ensures
        divides(d, gcd_spec(a, b) as int),
    decreases b,
{
    if b > 0 {
        let ka = choose|k: int| #[trigger] (d * k) == a as int;
        let kb = choose|k: int| #[trigger] (d * k) == b as int;
        lemma_fundamental_div_mod(a as int, b as int);
        let q = (a / b) as int;
        assert(d * (ka - kb * q) == a % b) by (nonlinear_arith)
            requires
                d * ka == a,
                d * kb == b,
                a == b * q + a % b,
        ;
        lemma_gcd_greatest(b, a % b, d);
    }
}

/// The gcd is zero only for two zeros.
pub proof fn lemma_gcd_zero(a: nat, b: nat)
    ensures
        (gcd_spec(a, b) == 0) == (a == 0 && b == 0),
    decreases b,
{
    if b > 0 {
        lemma_gcd_zero(b, a % b);
    }
}

/// The result of [`gcd`] divides both arguments and every common divisor of the
/// arguments divides it; it is zero only when both arguments are.
pub proof fn lemma_gcd_is_greatest_common_divisor(a: int, b: int, d: int)
    requires
        divides(d, a),
        divides(d, b),
    ensures
        divides(gcd_spec(abs(a), abs(b)) as int, a),
        divides(gcd_spec(abs(a), abs(b)) as int, b),
        divides(d, gcd_spec(abs(a), abs(b)) as int),
        gcd_spec(abs(a), abs(b)) >= 0,
        (gcd_spec(abs(a), abs(b)) == 0) == (a == 0 && b == 0),
{
    let g = gcd_spec(abs(a), abs(b)) as int;
    lemma_gcd_divides(abs(a), abs(b));
    lemma_gcd_zero(abs(a), abs(b));
    lemma_divides_abs(g, a);
    lemma_divides_abs(g, b);
    lemma_divides_abs(d, a);
    lemma_divides_abs(d, b);
    lemma_gcd_greatest(abs(a), abs(b), d);
}

/// `d` divides `x` exactly when it divides `|x|`.
proof fn lemma_divides_abs(d: int, x: int)
    ensures
        divides(d, x) == divides(d, abs(x) as int),
{
    if divides(d, x) {
        let k = choose|k: int| #[trigger] (d * k) == x;
        assert(d * (-k) == -x) by (nonlinear_arith)
            requires
                d * k == x,
        ;
        if x < 0 {
            assert(d * (-k) == abs(x));
        } else {
            assert(d * k == abs(x));
        }
    }
    if divides(d, abs(x) as int) {
        let k = choose|k: int| #[trigger] (d * k) == abs(x) as int;
        assert(d * (-k) == -(abs(x) as int)) by (nonlinear_arith)
            requires
                d * k == abs(x),
        ;
        if x < 0 {
            assert(d * (-k) == x);
        } else {
            assert(d * k == x);
        }
    }
}

/// Splits `n` as `2^s * d` with `d` odd (or zero): returns `(s, d)`.
pub open spec fn two_adic(n: nat) -> (nat, nat)
    decreases n,
{
    if n == 0 || n % 2 == 1 {
        (0, n)
    } else {
        let p = two_adic(n / 2);
        (p.0 + 1, p.1)
    }
}

/// `BASE^k` is at most `2^(30k)`.
proof fn lemma_pow_base_below_pow2(k: nat)
    ensures
        pow_base(k) <= pow2(30 * k),
    decreases k,
{
    if k == 0 {
        lemma_pow2_pos(0);
        assert(pow2(0) == 1) by {
            lemma2_to64();
        }
    } else {
        lemma_pow_base_below_pow2((k - 1) as nat);
        lemma2_to64();
        lemma_pow2_adds(30 * (k - 1) as nat, 30);
        assert(30 * k == 30 * (k - 1) as nat + 30);
        let x = pow_base((k - 1) as nat);
        let y = pow2(30 * (k - 1) as nat);
        assert(1_000_000_000 * x <= y * 0x40000000) by (nonlinear_arith)
            requires
                x <= y,
        ;
    }
}

/// Factors `n = 2^s * d` where `d` is odd. Returns `(s, d)`.
fn factor_out_twos(n: &BigInt) -> (res: (u128, BigInt))
    requires
        n.wf(),
        n@ >= 0,
    ensures
        res.1.wf(),
        res.1@ >= 0,
        two_adic(n@ as nat) == (res.0 as nat, res.1@ as nat),
{
    let mut s: u128 = 0;
    let mut d = n.copy();
    let two = BigInt::from_u64(2);
    let len = n.digits.len();
    let ghost n0 = n@ as nat;
    proof {
        n.lemma_wf_sign();
        lemma_value_upper(n.limbs());
        lemma_pow_base_below_pow2(n.size());
        lemma_pow2_pos(0);
        lemma2_to64();
        assert(pow2(0) * d@ == n0);
    }
    while !d.is_zero() && d.digits[0].is_multiple_of(2)
        invariant
            d.wf(),
            d@ >= 0,
            two.wf(),
            two@ == 2,
            n0 < pow2(30 * n.size()),
            n.size() == len,
            pow2(s as nat) * d@ == n0,
            two_adic(n0) == ((s + two_adic(d@ as nat).0) as nat, two_adic(d@ as nat).1),
        decreases d@,
    {
        proof {
            d.lemma_wf_sign();
            lemma_parity(&d);
        }
        let (half, _) = d.div_rem(&two);
        proof {
            let dv = d@ as nat;
            assert(dv % 2 == 0);
            assert(half@ == dv / 2);
            assert(two_adic(dv) == (two_adic(dv / 2).0 + 1, two_adic(dv / 2).1));
            lemma_pow2_adds(s as nat, 1);
            lemma2_to64();
            let p = pow2(s as nat);
            assert(pow2((s + 1) as nat) * (dv / 2) == n0) by (nonlinear_arith)
                requires
                    p * dv == n0,
                    pow2((s + 1) as nat) == p * 2,
                    dv % 2 == 0,
            ;
            // 2^(s+1) <= n0 < 2^(30 * size), so s + 1 stays far below u128::MAX
            assert(pow2((s + 1) as nat) <= n0) by (nonlinear_arith)
                requires
                    pow2((s + 1) as nat) * (dv / 2) == n0,
                    dv / 2 >= 1,
            ;
            if s + 1 >= 30 * n.size() {
                lemma_pow2_strictly_increases_or_equal(30 * n.size(), (s + 1) as nat);
            }
        }
        d = half;
        s = s + 1;
    }
    proof {
        d.lemma_wf_sign();
        if d@ != 0 {
            lemma_parity(&d);
        }
    }
    (s, d)
}

/// `2^a <= 2^b` when `a <= b`.
proof fn lemma_pow2_strictly_increases_or_equal(a: nat, b: nat)
    requires
        a <= b,
    ensures
        pow2(a) <= pow2(b),
{
    if a < b {
        lemma_pow2_strictly_increases(a, b);
    }
}

/// The bound below which the fixed witness set `2, 3, ..., 37` is used.
pub open spec fn deterministic_limit() -> int {
    3317044064679887385961981
}

/// The witnesses tried for `n`.
pub open spec fn witness_list(n: int) -> Seq<u64> {
    if n < deterministic_limit() {
        seq![2, 3, 5, 7, 11, 13, 17, 19, 23, 29, 31, 37]
    } else {
        seq![2, 3, 5, 7, 11, 13, 17, 19, 23, 29, 31, 37, 41, 43, 47, 53, 59, 61, 67, 71]
    }
}

/// Some of the next `j` squarings of `x` modulo `n` gives `n - 1`.
pub open spec fn squares_reach(x: int, j: nat, n: int) -> bool
    decreases j,
{
    if j == 0 {
        false
    } else {
        let y = (x * x) % n;
        y == n - 1 || squares_reach(y, (j - 1) as nat, n)
    }
}

/// A Miller-Rabin round with witness `a` for `n - 1 = 2^s * d` does not expose
/// `n` as composite: `x = a^d mod n` is `1` or `n - 1`, or one of its next
/// `s - 1` squares is `n - 1` (witnesses at least `n - 1` are skipped).
pub open spec fn witness_passes(n: int, a: int, s: nat, d: nat) -> bool {
    a >= n - 1 || {
        let x = pow(a, d) % n;
        x == 1 || x == n - 1 || (s >= 1 && squares_reach(x, (s - 1) as nat, n))
    }
}

/// `n - 1 = 2^s * d` with `d` odd, as [`two_adic`] splits it.
pub open spec fn splits_as(n: int, s: u128, d: int) -> bool {
    two_adic((n - 1) as nat) == (s as nat, d as nat)
}

/// The Miller-Rabin round for witness `w` passes.
pub open spec fn round_passes(n: int, w: u64, s: u128, d: int) -> bool {
    witness_passes(n, w as int, s as nat, d as nat)
}

/// `w^d mod n`.
pub open spec fn witness_residue(n: int, w: u64, d: int) -> int {
    pow(w as int, d as nat) % n
}

/// Squarings left in a round that squares up to `s - 1` times, once the
/// counter that starts at one has reached `j`.
pub open spec fn squarings_left(s: u128, j: u128) -> nat {
    if j <= s {
        (s - j) as nat
    } else {
        0
    }
}

/// The answer of [`is_probable_prime`] for `n` with `k` rounds.
pub open spec fn miller_rabin(n: int, k: nat) -> bool {
    if n < 2 {
        false
    } else if n < 4 {
        true
    } else if n % 2 == 0 {
        false
    } else {
        let (s, d) = two_adic((n - 1) as nat);
        let w = witness_list(n);
        let rounds = if k < w.len() {
            k
        } else {
            w.len()
        };
        forall|i: int| 0 <= i < rounds ==> witness_passes(n, #[trigger] w[i] as int, s, d)
    }
}

/// The `i`-th witness tried for `n`.
pub open spec fn nth_witness(n: int, i: int) -> int {
    witness_list(n)[i] as int
}

/// `n` is a strong probable prime to base `a`: writing `n - 1 = 2^s * d` with
/// `d` odd, either `a^d ≡ 1 (mod n)` or `a^(2^r * d) ≡ -1 (mod n)` for some
/// `0 <= r < s`.
pub open spec fn strong_probable_prime(n: int, a: int) -> bool {
    let (s, d) = two_adic((n - 1) as nat);
    pow(a, d) % n == 1 || exists|r: nat| r < s && #[trigger] (pow(a, d * pow2(r)) % n) == n - 1
}

/// Determines if `n` is a probable prime using the Miller-Rabin test.
///
/// Performs `k` rounds of testing. The probability of a false positive is at most 4^(-k).
/// For cryptographic purposes, `k = 20` gives error probability < 10^(-12).
///
/// # How it works
/// Write `n - 1 = 2^s * d` where `d` is odd. Then for each round:
/// 1. Take the next witness `a` from a fixed list of small primes (twelve below
///    3.3e24, twenty above; rounds stop at the end of the list, and a witness
///    that is not below `n-1` is skipped)
/// 2. Compute `x = a^d mod n`
/// 3. If `x == 1` or `x == n-1`, this round passes
/// 4. Otherwise square `x` up to `s-1` times; if any equals `n-1`, pass
/// 5. If no square equals `n-1`, `n` is composite
pub fn is_probable_prime(n: &BigInt, k: usize) -> (r: bool)
    requires
        n.wf(),
    ensures
        r == miller_rabin(n@, idx(k)),
        r == (n@ == 2 || n@ == 3 || (n@ >= 5 && n@ % 2 == 1 && forall|i: int|
            0 <= i < idx(k) && 0 <= i < witness_list(n@).len() ==> #[trigger] nth_witness(n@, i)
                >= n@ - 1 || strong_probable_prime(n@, nth_witness(n@, i)))),
{
    proof {
        lemma_miller_rabin_is_strong_test(n@, idx(k));
    }
    let two = BigInt::from_u64(2);
    proof {
        lemma_order_matches_integers(n, &two);
    }
    if *n < two {
        return false;
    }
    let four = BigInt::from_u64(4);
    proof {
        lemma_order_matches_integers(n, &four);
    }
    if *n < four {
        return true;
    }
    proof {
        n.lemma_wf_sign();
        lemma_parity(n);
    }
    // Check if even
    if n.digits[0].is_multiple_of(2) {
        return false;
    }

    // Write n - 1 = 2^s * d
    let one = BigInt::from_u64(1);
    let n_minus_1 = crate::arithmetic::sub(n, &one);
    proof {
        n_minus_1.lemma_wf_sign();
        n.lemma_wf_sign();
    }
    let (s, d) = factor_out_twos(&n_minus_1);

    // Deterministic witnesses below 3.3e24, the first twenty primes above.
    let limbs: Vec<u64> = vec![385961981, 64679887, 3317044];
    proof {
        let l = limbs@;
        assert(l =~= seq![385961981u64, 64679887u64, 3317044u64]);
        let l1 = l.drop_first();
        let l2 = l1.drop_first();
        let l3 = l2.drop_first();
        assert(l3 =~= Seq::<u64>::empty());
        assert(value_of(l3) == 0);
        assert(value_of(l2) == 3317044);
        assert(value_of(l1) == 64679887 + 1_000_000_000 * 3317044);
        assert(value_of(l) == deterministic_limit());
        assert(canonical(l));
    }
    let limit = BigInt::from_limbs(limbs);
    proof {
        lemma_order_matches_integers(n, &limit);
    }
    let witnesses: Vec<u64> = if *n < limit {
        vec![2, 3, 5, 7, 11, 13, 17, 19, 23, 29, 31, 37]
    } else {
        vec![2, 3, 5, 7, 11, 13, 17, 19, 23, 29, 31, 37, 41, 43, 47, 53, 59, 61, 67, 71]
    };
    proof {
        assert(witnesses@ =~= witness_list(n@));
    }

    let rounds = k.min(witnesses.len());
    let mut i: usize = 0;
    while i < rounds
        invariant
            n.wf(),
            n@ >= 4,
            n_minus_1.wf(),
            n_minus_1@ == n@ - 1,
            one.wf(),
            one@ == 1,
            two.wf(),
            two@ == 2,
            d.wf(),
            d@ >= 0,
            splits_as(n@, s, d@),
            witnesses@ == witness_list(n@),
            rounds <= witnesses@.len(),
            idx(rounds) == if idx(k) < witnesses@.len() { idx(k) } else { witnesses@.len() },
            i <= rounds,
            forall|j: int| 0 <= j < i ==> round_passes(n@, #[trigger] witnesses@[j], s, d@),
        decreases rounds - i,
    {
        let w = witnesses[i];
        let a = BigInt::from_u64(w);
        proof {
            lemma_order_matches_integers(&a, &n_minus_1);
        }
        proof {
            assert(witnesses@[ix(i)] == w);
        }
        if a >= n_minus_1 {
            proof {
                assert(round_passes(n@, w, s, d@));
            }
            i = i + 1;
        } else {
            let mut x = mod_exp(&a, &d, n);
            let ghost x0 = x@;
            proof {
                d.lemma_wf_sign();
                lemma_eq_iff_same_value(&x, &one);
                lemma_eq_iff_same_value(&x, &n_minus_1);
            }
            proof {
                assert(a@ == w);
                assert(abs(d@) == d@);
                assert(x0 == pow(a@, abs(d@)) % n@);
                assert(x0 == witness_residue(n@, w, d@));
            }
            if x == one || x == n_minus_1 {
                proof {
                    assert(round_passes(n@, w, s, d@));
                }
                i = i + 1;
            } else {
                let mut found = false;
                let mut j: u128 = 1;
                while j < s && !found
                    invariant
                        n.wf(),
                        n@ >= 4,
                        n_minus_1.wf(),
                        n_minus_1@ == n@ - 1,
                        two.wf(),
                        two@ == 2,
                        x.wf(),
                        1 <= j,
                        j <= s || s == 0,
                        found ==> squares_reach(x0, squarings_left(s, 1), n@),
                        !found ==> squares_reach(x0, squarings_left(s, 1), n@) == squares_reach(
                            x@,
                            squarings_left(s, j),
                            n@,
                        ),
                    decreases s - j,
                {
                    let ghost before = x@;
                    x = mod_exp(&x, &two, n);
                    proof {
                        lemma_square_is_pow2(before);
                        assert(abs(2) == 2);
                        lemma_eq_iff_same_value(&x, &n_minus_1);
                    }
                    if x == n_minus_1 {
                        found = true;
                    }
                    j = j + 1;
                }
                if !found {
                    proof {
                        assert(squarings_left(s, j) == 0);

                        assert(!round_passes(n@, witnesses@[ix(i)], s, d@));
                        lemma_miller_rabin_is_strong_test(n@, idx(k));
                    }
                    return false;
                }
                proof {
                    assert(round_passes(n@, w, s, d@));
                }
                i = i + 1;
            }
        }
    }
    true
}

/// `x` squared `j` times modulo `n`.
pub open spec fn square_iter(x: int, j: nat, n: int) -> int
    decreases j,
{
    if j == 0 {
        x
    } else {
        square_iter((x * x) % n, (j - 1) as nat, n)
    }
}

/// Squaring `a^e mod n` repeatedly gives `a^(e * 2^j) mod n`.
proof fn lemma_square_iter_pow(a: int, e: nat, j: nat, n: int)
    requires
        n > 0,
    ensures
        square_iter(pow(a, e) % n, j, n) == pow(a, e * pow2(j)) % n,
    decreases j,
{
    lemma2_to64();
    if j == 0 {
        assert(e * pow2(0) == e);
    } else {
        let x = pow(a, e) % n;
        lemma_mul_mod_noop_general(pow(a, e), pow(a, e), n);
        lemma_pow_adds(a, e, e);
        assert((x * x) % n == pow(a, e + e) % n);
        lemma_square_iter_pow(a, e + e, (j - 1) as nat, n);
        lemma_pow2_adds(1, (j - 1) as nat);
        assert(pow2(j) == 2 * pow2((j - 1) as nat));
        assert((e + e) * pow2((j - 1) as nat) == e * pow2(j)) by (nonlinear_arith)
            requires
                pow2(j) == 2 * pow2((j - 1) as nat),
        ;
    }
}

/// Modulo a prime, a value other than one whose `s`-th square is one is
/// `n - 1` or has `n - 1` among its next `s - 1` squares.
proof fn lemma_root_chain(x: int, s: nat, n: int)
    requires
        is_prime(n),
        0 <= x < n,
        x != 1,
        square_iter(x, s, n) == 1,
    ensures
        s >= 1,
        x == n - 1 || squares_reach(x, (s - 1) as nat, n),
    decreases s,
{
    if s > 0 {
        let y = (x * x) % n;
        lemma_mod_bound(x * x, n);
        if y == 1 {
            lemma_square_root_of_one(n, x);
        } else {
            lemma_root_chain(y, (s - 1) as nat, n);
            assert(s - 1 >= 1);
        }
    }
}

/// `two_adic(m)` splits a positive `m` as `2^s * d` with `d` odd.
proof fn lemma_two_adic(m: nat)
    requires
        m > 0,
    ensures
        pow2(two_adic(m).0) * two_adic(m).1 == m,
        two_adic(m).1 % 2 == 1,
    decreases m,
{
    lemma2_to64();
    if m % 2 == 0 {
        lemma_two_adic(m / 2);
        let (s, d) = two_adic(m / 2);
        lemma_pow2_adds(s, 1);
        assert(pow2(s + 1) * d == 2 * (pow2(s) * d)) by (nonlinear_arith)
            requires
                pow2(s + 1) == pow2(s) * 2,
        ;
    } else {
        assert(pow2(0) * m == m);
    }
}

/// Miller-Rabin never rejects a prime: for a prime `n` and any number of
/// rounds, [`is_probable_prime`] answers `true`.
pub proof fn lemma_primes_pass(n: int, k: nat)
    requires
        is_prime(n),
    ensures
        miller_rabin(n, k),
{
    if n >= 4 {
        assert(n % 2 != 0);
        let (s, d) = two_adic((n - 1) as nat);
        lemma_two_adic((n - 1) as nat);
        lemma2_to64();
        if s == 0 {
            assert(pow2(0) * d == d);
        }
        let w = witness_list(n);
        let rounds = if k < w.len() {
            k
        } else {
            w.len()
        };
        assert forall|i: int| 0 <= i < rounds implies witness_passes(
            n,
            #[trigger] w[i] as int,
            s,
            d,
        ) by {
            let a = w[i] as int;
            assert(a >= 2);
            if a < n - 1 {
                lemma_small_mod(a as nat, n as nat);
                lemma_fermat_little(n, a as nat);
                lemma_mod_bound(pow(a, d), n);
                let x0 = pow(a, d) % n;
                lemma_square_iter_pow(a, d, s, n);
                assert(d * pow2(s) == pow2(s) * d) by (nonlinear_arith);
                assert(square_iter(x0, s, n) == 1);
                if x0 != 1 {
                    lemma_root_chain(x0, s, n);
                }
            }
        }
    }
}

/// Some of the next `j` squarings of `x` reaches `n - 1` exactly when the
/// `t`-th square is `n - 1` for some `1 <= t <= j`.
proof fn lemma_squares_reach_exists(x: int, j: nat, n: int)
    ensures
        squares_reach(x, j, n) == exists|t: nat| 1 <= t <= j && #[trigger] square_iter(x, t, n) == n
            - 1,
    decreases j,
{
    if j > 0 {
        let y = (x * x) % n;
        lemma_squares_reach_exists(y, (j - 1) as nat, n);
        assert(square_iter(y, 0, n) == y);
        assert(square_iter(x, 1, n) == y);
        if squares_reach(x, j, n) {
            if y != n - 1 {
                let t = choose|t: nat| 1 <= t <= j - 1 && #[trigger] square_iter(y, t, n) == n - 1;
                assert(square_iter(x, t + 1, n) == square_iter(y, t, n));
            }
        }
        if exists|t: nat| 1 <= t <= j && #[trigger] square_iter(x, t, n) == n - 1 {
            let t = choose|t: nat| 1 <= t <= j && #[trigger] square_iter(x, t, n) == n - 1;
            if t > 1 {
                assert(square_iter(x, t, n) == square_iter(y, (t - 1) as nat, n));
            }
        }
    }
}

/// For an odd `n >= 5`, a round of [`is_probable_prime`] with witness `a`
/// passes exactly when `a` is skipped or `n` is a strong probable prime to base `a`.
proof fn lemma_round_is_strong_test(n: int, a: int)
    requires
        n >= 5,
        n % 2 == 1,
    ensures
        witness_passes(n, a, two_adic((n - 1) as nat).0, two_adic((n - 1) as nat).1) == (a >= n
            - 1 || strong_probable_prime(n, a)),
{
    let (s, d) = two_adic((n - 1) as nat);
    lemma_two_adic((n - 1) as nat);
    lemma2_to64();
    if s == 0 {
        assert(pow2(0) * d == d);
    }
    assert(s >= 1);
    let x = pow(a, d) % n;
    lemma_squares_reach_exists(x, (s - 1) as nat, n);
    assert(d * pow2(0) == d);
    if a < n - 1 {
        if witness_passes(n, a, s, d) && x != 1 {
            if x == n - 1 {
                assert(pow(a, d * pow2(0)) % n == n - 1);
            } else {
                let t = choose|t: nat| 1 <= t <= s - 1 && #[trigger] square_iter(x, t, n) == n - 1;
                lemma_square_iter_pow(a, d, t, n);
                assert(pow(a, d * pow2(t)) % n == n - 1);
            }
        }
        if strong_probable_prime(n, a) && x != 1 {
            let r = choose|r: nat| r < s && #[trigger] (pow(a, d * pow2(r)) % n) == n - 1;
            if r > 0 {
                lemma_square_iter_pow(a, d, r, n);
                assert(square_iter(x, r, n) == n - 1);
            }
        }
    }
}

/// What [`is_probable_prime`] decides, as the Miller-Rabin test is usually
/// stated: `2` and `3` are accepted; other numbers below `2` or even are
/// rejected; an odd `n >= 5` is accepted exactly when it is a strong probable
/// prime to every one of the first `k` witnesses (all of them when `k` is
/// larger) that lies below `n - 1`. One witness that fails is enough to reject.
pub proof fn lemma_miller_rabin_is_strong_test(n: int, k: nat)
    ensures
        miller_rabin(n, k) == (n == 2 || n == 3 || (n >= 5 && n % 2 == 1 && forall|i: int|
            0 <= i < k && 0 <= i < witness_list(n).len() ==> #[trigger] nth_witness(n, i) >= n - 1
                || strong_probable_prime(n, nth_witness(n, i)))),
{
    if n >= 5 && n % 2 == 1 {
        let (s, d) = two_adic((n - 1) as nat);
        let w = witness_list(n);
        if miller_rabin(n, k) {
            assert forall|i: int| 0 <= i < k && 0 <= i < w.len() implies #[trigger] nth_witness(n, i)
                >= n - 1 || strong_probable_prime(n, nth_witness(n, i)) by {
                assert(witness_passes(n, w[i] as int, s, d));
                lemma_round_is_strong_test(n, w[i] as int);
            }
        }
        if forall|i: int| 0 <= i < k && 0 <= i < w.len() ==> #[trigger] nth_witness(n, i) >= n - 1
            || strong_probable_prime(n, nth_witness(n, i)) {
            let rounds = if k < w.len() {
                k
            } else {
                w.len()
            };
            assert forall|i: int| 0 <= i < rounds implies witness_passes(
                n,
                #[trigger] w[i] as int,
                s,
                d,
            ) by {
                assert(nth_witness(n, i) == w[i] as int);
                lemma_round_is_strong_test(n, w[i] as int);
            }
        }
    }
}

/// A number in `2..81` that none of `2..=8` divides is prime: a divisor pair of
/// it has one member below `9`.
proof fn lemma_small_prime(n: int)
    requires
        2 <= n < 81,
        n % 2 != 0 || n == 2,
        n % 3 != 0 || n == 3,
        n % 4 != 0,
        n % 5 != 0 || n == 5,
        n % 6 != 0,
        n % 7 != 0 || n == 7,
        n % 8 != 0,
    ensures
        is_prime(n),
{
    assert forall|e: int| 2 <= e < n implies #[trigger] (n % e) != 0 by {
        if n % e == 0 {
            lemma_fundamental_div_mod(n, e);
            let f = n / e;
            assert(n == e * f);
            if e <= 8 {
                assert(e == 2 || e == 3 || e == 4 || e == 5 || e == 6 || e == 7 || e == 8);
            } else {
                assert(2 <= f <= 8) by (nonlinear_arith)
                    requires
                        n == e * f,
                        9 <= e < n,
                        n < 81,
                ;
                vstd::arithmetic::div_mod::lemma_mod_multiples_basic(e, f);
                assert(n % f == 0) by {
                    assert(e * f == f * e) by (nonlinear_arith);
                }
                assert(f == 2 || f == 3 || f == 4 || f == 5 || f == 6 || f == 7 || f == 8);
            }
        }
    }
}

/// The witnesses are the smallest primes in increasing order: the first twelve
/// below `3317044064679887385961981`, the first twenty from there on.
pub proof fn lemma_witnesses_are_first_primes(n: int)
    ensures
        witness_list(n).len() == if n < 3317044064679887385961981 {
            12int
        } else {
            20int
        },
        forall|i: int| 0 <= i < witness_list(n).len() ==> is_prime(#[trigger] nth_witness(n, i)),
        forall|i: int, j: int|
            0 <= i < j < witness_list(n).len() ==> #[trigger] nth_witness(n, i) < #[trigger] nth_witness(
                n,
                j,
            ),
        forall|p: int|
            is_prime(p) && p <= nth_witness(n, witness_list(n).len() - 1) ==> exists|i: int|
                0 <= i < witness_list(n).len() && #[trigger] nth_witness(n, i) == p,
{
    let len = witness_list(n).len() as int;
    lemma_small_prime(2);
    lemma_small_prime(3);
    lemma_small_prime(5);
    lemma_small_prime(7);
    lemma_small_prime(11);
    lemma_small_prime(13);
    lemma_small_prime(17);
    lemma_small_prime(19);
    lemma_small_prime(23);
    lemma_small_prime(29);
    lemma_small_prime(31);
    lemma_small_prime(37);
    lemma_small_prime(41);
    lemma_small_prime(43);
    lemma_small_prime(47);
    lemma_small_prime(53);
    lemma_small_prime(59);
    lemma_small_prime(61);
    lemma_small_prime(67);
    lemma_small_prime(71);
    assert forall|i: int| 0 <= i < len implies nth_witness(n, i) == seq![2int, 3int, 5int, 7int, 11int, 13int, 17int, 19int, 23int, 29int, 31int, 37int, 41int, 43int, 47int, 53int, 59int, 61int, 67int, 71int][i] by {
        if i == 0 {
        } else         if i == 1 {
        } else         if i == 2 {
        } else         if i == 3 {
        } else         if i == 4 {
        } else         if i == 5 {
        } else         if i == 6 {
        } else         if i == 7 {
        } else         if i == 8 {
        } else         if i == 9 {
        } else         if i == 10 {
        } else         if i == 11 {
        } else         if i == 12 {
        } else         if i == 13 {
        } else         if i == 14 {
        } else         if i == 15 {
        } else         if i == 16 {
        } else         if i == 17 {
        } else         if i == 18 {
        } else         if i == 19 {
        } else {
        }
    }
    let tbl = seq![2int, 3int, 5int, 7int, 11int, 13int, 17int, 19int, 23int, 29int, 31int, 37int, 41int, 43int, 47int, 53int, 59int, 61int, 67int, 71int];
    assert forall|i: int| 0 <= i < len implies is_prime(#[trigger] nth_witness(n, i)) by {
        if i == 0 {
            assert(tbl[0] == 2);
        } else         if i == 1 {
            assert(tbl[1] == 3);
        } else         if i == 2 {
            assert(tbl[2] == 5);
        } else         if i == 3 {
            assert(tbl[3] == 7);
        } else         if i == 4 {
            assert(tbl[4] == 11);
        } else         if i == 5 {
            assert(tbl[5] == 13);
        } else         if i == 6 {
            assert(tbl[6] == 17);
        } else         if i == 7 {
            assert(tbl[7] == 19);
        } else         if i == 8 {
            assert(tbl[8] == 23);
        } else         if i == 9 {
            assert(tbl[9] == 29);
        } else         if i == 10 {
            assert(tbl[10] == 31);
        } else         if i == 11 {
            assert(tbl[11] == 37);
        } else         if i == 12 {
            assert(tbl[12] == 41);
        } else         if i == 13 {
            assert(tbl[13] == 43);
        } else         if i == 14 {
            assert(tbl[14] == 47);
        } else         if i == 15 {
            assert(tbl[15] == 53);
        } else         if i == 16 {
            assert(tbl[16] == 59);
        } else         if i == 17 {
            assert(tbl[17] == 61);
        } else         if i == 18 {
            assert(tbl[18] == 67);
        } else         if i == 19 {
            assert(tbl[19] == 71);
        } else {
        }
    }
    assert forall|i: int, j: int| 0 <= i < j < len implies #[trigger] nth_witness(n, i)
        < #[trigger] nth_witness(n, j) by {
        if i == 0 {
            assert(tbl[0] == 2);
        } else         if i == 1 {
            assert(tbl[1] == 3);
        } else         if i == 2 {
            assert(tbl[2] == 5);
        } else         if i == 3 {
            assert(tbl[3] == 7);
        } else         if i == 4 {
            assert(tbl[4] == 11);
        } else         if i == 5 {
            assert(tbl[5] == 13);
        } else         if i == 6 {
            assert(tbl[6] == 17);
        } else         if i == 7 {
            assert(tbl[7] == 19);
        } else         if i == 8 {
            assert(tbl[8] == 23);
        } else         if i == 9 {
            assert(tbl[9] == 29);
        } else         if i == 10 {
            assert(tbl[10] == 31);
        } else         if i == 11 {
            assert(tbl[11] == 37);
        } else         if i == 12 {
            assert(tbl[12] == 41);
        } else         if i == 13 {
            assert(tbl[13] == 43);
        } else         if i == 14 {
            assert(tbl[14] == 47);
        } else         if i == 15 {
            assert(tbl[15] == 53);
        } else         if i == 16 {
            assert(tbl[16] == 59);
        } else         if i == 17 {
            assert(tbl[17] == 61);
        } else         if i == 18 {
            assert(tbl[18] == 67);
        } else         if i == 19 {
            assert(tbl[19] == 71);
        } else {
        }
        if j == 0 {
            assert(tbl[0] == 2);
        } else         if j == 1 {
            assert(tbl[1] == 3);
        } else         if j == 2 {
            assert(tbl[2] == 5);
        } else         if j == 3 {
            assert(tbl[3] == 7);
        } else         if j == 4 {
            assert(tbl[4] == 11);
        } else         if j == 5 {
            assert(tbl[5] == 13);
        } else         if j == 6 {
            assert(tbl[6] == 17);
        } else         if j == 7 {
            assert(tbl[7] == 19);
        } else         if j == 8 {
            assert(tbl[8] == 23);
        } else         if j == 9 {
            assert(tbl[9] == 29);
        } else         if j == 10 {
            assert(tbl[10] == 31);
        } else         if j == 11 {
            assert(tbl[11] == 37);
        } else         if j == 12 {
            assert(tbl[12] == 41);
        } else         if j == 13 {
            assert(tbl[13] == 43);
        } else         if j == 14 {
            assert(tbl[14] == 47);
        } else         if j == 15 {
            assert(tbl[15] == 53);
        } else         if j == 16 {
            assert(tbl[16] == 59);
        } else         if j == 17 {
            assert(tbl[17] == 61);
        } else         if j == 18 {
            assert(tbl[18] == 67);
        } else         if j == 19 {
            assert(tbl[19] == 71);
        } else {
        }
    }
    assert forall|p: int| is_prime(p) && p <= nth_witness(n, len - 1) implies exists|i: int|
        0 <= i < len && #[trigger] nth_witness(n, i) == p by {
        assert(tbl[11] == 37 && tbl[19] == 71);
        if p == 2 {
            assert(tbl[0] == 2);
            assert(nth_witness(n, 0) == p);
        } else         if p == 3 {
            assert(tbl[1] == 3);
            assert(nth_witness(n, 1) == p);
        } else         if p == 4 {
            assert(p % 2 == 0);
        } else         if p == 5 {
            assert(tbl[2] == 5);
            assert(nth_witness(n, 2) == p);
        } else         if p == 6 {
            assert(p % 2 == 0);
        } else         if p == 7 {
            assert(tbl[3] == 7);
            assert(nth_witness(n, 3) == p);
        } else         if p == 8 {
            assert(p % 2 == 0);
        } else         if p == 9 {
            assert(p % 3 == 0);
        } else         if p == 10 {
            assert(p % 2 == 0);
        } else         if p == 11 {
            assert(tbl[4] == 11);
            assert(nth_witness(n, 4) == p);
        } else         if p == 12 {
            assert(p % 2 == 0);
        } else         if p == 13 {
            assert(tbl[5] == 13);
            assert(nth_witness(n, 5) == p);
        } else         if p == 14 {
            assert(p % 2 == 0);
        } else         if p == 15 {
            assert(p % 3 == 0);
        } else         if p == 16 {
            assert(p % 2 == 0);
        } else         if p == 17 {
            assert(tbl[6] == 17);
            assert(nth_witness(n, 6) == p);
        } else         if p == 18 {
            assert(p % 2 == 0);
        } else         if p == 19 {
            assert(tbl[7] == 19);
            assert(nth_witness(n, 7) == p);
        } else         if p == 20 {
            assert(p % 2 == 0);
        } else         if p == 21 {
            assert(p % 3 == 0);
        } else         if p == 22 {
            assert(p % 2 == 0);
        } else         if p == 23 {
            assert(tbl[8] == 23);
            assert(nth_witness(n, 8) == p);
        } else         if p == 24 {
            assert(p % 2 == 0);
        } else         if p == 25 {
            assert(p % 5 == 0);
        } else         if p == 26 {
            assert(p % 2 == 0);
        } else         if p == 27 {
            assert(p % 3 == 0);
        } else         if p == 28 {
            assert(p % 2 == 0);
        } else         if p == 29 {
            assert(tbl[9] == 29);
            assert(nth_witness(n, 9) == p);
        } else         if p == 30 {
            assert(p % 2 == 0);
        } else         if p == 31 {
            assert(tbl[10] == 31);
            assert(nth_witness(n, 10) == p);
        } else         if p == 32 {
            assert(p % 2 == 0);
        } else         if p == 33 {
            assert(p % 3 == 0);
        } else         if p == 34 {
            assert(p % 2 == 0);
        } else         if p == 35 {
            assert(p % 5 == 0);
        } else         if p == 36 {
            assert(p % 2 == 0);
        } else         if p == 37 {
            assert(tbl[11] == 37);
            assert(nth_witness(n, 11) == p);
        } else         if p == 38 {
            assert(p % 2 == 0);
        } else         if p == 39 {
            assert(p % 3 == 0);
        } else         if p == 40 {
            assert(p % 2 == 0);
        } else         if p == 41 {
            assert(tbl[12] == 41);
            assert(nth_witness(n, 12) == p);
        } else         if p == 42 {
            assert(p % 2 == 0);
        } else         if p == 43 {
            assert(tbl[13] == 43);
            assert(nth_witness(n, 13) == p);
        } else         if p == 44 {
            assert(p % 2 == 0);
        } else         if p == 45 {
            assert(p % 3 == 0);
        } else         if p == 46 {
            assert(p % 2 == 0);
        } else         if p == 47 {
            assert(tbl[14] == 47);
            assert(nth_witness(n, 14) == p);
        } else         if p == 48 {
            assert(p % 2 == 0);
        } else         if p == 49 {
            assert(p % 7 == 0);
        } else         if p == 50 {
            assert(p % 2 == 0);
        } else         if p == 51 {
            assert(p % 3 == 0);
        } else         if p == 52 {
            assert(p % 2 == 0);
        } else         if p == 53 {
            assert(tbl[15] == 53);
            assert(nth_witness(n, 15) == p);
        } else         if p == 54 {
            assert(p % 2 == 0);
        } else         if p == 55 {
            assert(p % 5 == 0);
        } else         if p == 56 {
            assert(p % 2 == 0);
        } else         if p == 57 {
            assert(p % 3 == 0);
        } else         if p == 58 {
            assert(p % 2 == 0);
        } else         if p == 59 {
            assert(tbl[16] == 59);
            assert(nth_witness(n, 16) == p);
        } else         if p == 60 {
            assert(p % 2 == 0);
        } else         if p == 61 {
            assert(tbl[17] == 61);
            assert(nth_witness(n, 17) == p);
        } else         if p == 62 {
            assert(p % 2 == 0);
        } else         if p == 63 {
            assert(p % 3 == 0);
        } else         if p == 64 {
            assert(p % 2 == 0);
        } else         if p == 65 {
            assert(p % 5 == 0);
        } else         if p == 66 {
            assert(p % 2 == 0);
        } else         if p == 67 {
            assert(tbl[18] == 67);
            assert(nth_witness(n, 18) == p);
        } else         if p == 68 {
            assert(p % 2 == 0);
        } else         if p == 69 {
            assert(p % 3 == 0);
        } else         if p == 70 {
            assert(p % 2 == 0);
        } else         if p == 71 {
            assert(tbl[19] == 71);
            assert(nth_witness(n, 19) == p);
        } else {
        }
    }
}

} // verus!
