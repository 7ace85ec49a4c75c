//! Digit sequences in base 10^9 and the facts about their values that the
//! arithmetic routines rest on.

use std::cmp::Ordering;
use vstd::prelude::*;

verus! {

/// Radix of the digit representation.
pub const BASE: u64 = 1_000_000_000;

/// `BASE` raised to the power `k`.
pub open spec fn pow_base(k: nat) -> nat
    decreases k,
{
    if k == 0 {
        1
    } else {
        1_000_000_000 * pow_base((k - 1) as nat)
    }
}

/// The number that a little-endian sequence of base-10^9 digits stands for.
pub open spec fn value_of(s: Seq<u64>) -> nat
    decreases s.len(),
{
    if s.len() == 0 {
        0
    } else {
        s[0] as nat + 1_000_000_000 * value_of(s.drop_first())
    }
}

/// Every digit is below the radix.
pub open spec fn digits_bounded(s: Seq<u64>) -> bool {
    forall|i: int| 0 <= i < s.len() ==> #[trigger] s[i] < BASE
}

/// The most significant digit, if there is one, is not zero.
pub open spec fn no_leading_zero(s: Seq<u64>) -> bool {
    s.len() > 0 ==> s[s.len() - 1] != 0
}

/// A canonical digit sequence: bounded digits and no leading zero.
pub open spec fn canonical(s: Seq<u64>) -> bool {
    digits_bounded(s) && no_leading_zero(s)
}

pub proof fn lemma_pow_base_pos(k: nat)
    ensures
        pow_base(k) >= 1,
    decreases k,
{
    if k > 0 {
        lemma_pow_base_pos((k - 1) as nat);
    }
}

pub proof fn lemma_pow_base_add(a: nat, b: nat)
    ensures
        pow_base(a + b) == pow_base(a) * pow_base(b),
    decreases a,
{
    if a > 0 {
        lemma_pow_base_add((a - 1) as nat, b);
        let x = pow_base((a - 1) as nat);
        let y = pow_base(b);
        assert(((a + b) - 1) as nat == ((a - 1) as nat + b) as nat);
        assert(pow_base(a + b) == 1_000_000_000 * pow_base(((a - 1) as nat + b) as nat));
        assert(pow_base(a) == 1_000_000_000 * x);
        assert(1_000_000_000 * (x * y) == (1_000_000_000 * x) * y) by (nonlinear_arith);
    } else {
        assert(pow_base(0) == 1);
        assert(a + b == b);
    }
}

pub proof fn lemma_pow_base_mono(a: nat, b: nat)
    requires
        a <= b,
    ensures
        pow_base(a) <= pow_base(b),
    decreases b,
{
    if a < b {
        lemma_pow_base_mono(a, (b - 1) as nat);
        lemma_pow_base_pos((b - 1) as nat);
    }
}

/// Appending a most significant digit.
pub proof fn lemma_value_push(s: Seq<u64>, x: u64)
    ensures
        value_of(s.push(x)) == value_of(s) + x * pow_base(s.len()),
    decreases s.len(),
{
    if s.len() == 0 {
        assert(s.push(x).drop_first() =~= Seq::<u64>::empty());
        assert(value_of(Seq::<u64>::empty()) == 0);
        assert(s.push(x)[0] == x);
        assert(value_of(s.push(x)) == x as nat);
        assert(pow_base(0) == 1);
    } else {
        let t = s.drop_first();
        assert(s.push(x).drop_first() =~= t.push(x));
        lemma_value_push(t, x);
        let v = value_of(t);
        let p = pow_base(t.len());
        assert(pow_base(s.len()) == 1_000_000_000 * p);
        assert(value_of(s.push(x)) == s[0] + 1_000_000_000 * value_of(t.push(x)));
        assert(1_000_000_000 * (v + x * p) == 1_000_000_000 * v + x * (1_000_000_000 * p))
            by (nonlinear_arith);
    }
}

/// A bounded sequence of `n` digits stands for less than `BASE^n`.
pub proof fn lemma_value_upper(s: Seq<u64>)
    requires
        digits_bounded(s),
    ensures
        value_of(s) < pow_base(s.len()),
    decreases s.len(),
{
    if s.len() > 0 {
        let t = s.drop_first();
        assert(digits_bounded(t)) by {
            assert forall|i: int| 0 <= i < t.len() implies t[i] < BASE by {
                assert(t[i] == s[i + 1]);
            }
        }
        lemma_value_upper(t);
        let v = value_of(t);
        let p = pow_base(t.len());
        assert(s[0] < BASE);
        assert(s[0] + 1_000_000_000 * v < 1_000_000_000 * p) by (nonlinear_arith)
            requires
                s[0] < 1_000_000_000,
                v < p,
        ;
    }
}

/// A sequence without a leading zero stands for at least `BASE^(n-1)`.
pub proof fn lemma_value_lower(s: Seq<u64>)
    requires
        s.len() > 0,
        no_leading_zero(s),
    ensures
        value_of(s) >= pow_base((s.len() - 1) as nat),
{
    let t = s.drop_last();
    assert(s =~= t.push(s[s.len() - 1]));
    lemma_value_push(t, s[s.len() - 1]);
    let p = pow_base(t.len());
    let d = s[s.len() - 1];
    assert(d * p >= p) by (nonlinear_arith)
        requires
            d >= 1,
    ;
}

/// The value of a sequence splits at any position.
pub proof fn lemma_value_split(s: Seq<u64>, k: int)
    requires
        0 <= k <= s.len(),
    ensures
        value_of(s) == value_of(s.take(k)) + pow_base(k as nat) * value_of(s.skip(k)),
    decreases k,
{
    if k == 0 {
        assert(s.take(0) =~= Seq::<u64>::empty());
        assert(s.skip(0) =~= s);
        assert(value_of(Seq::<u64>::empty()) == 0);
        assert(value_of(s.take(0)) == 0);
        assert(value_of(s.skip(0)) == value_of(s));
        assert(pow_base(0) == 1);
        assert(k as nat == 0nat);
        assert(pow_base(k as nat) == 1);
        assert(value_of(s.skip(k)) == value_of(s));
        let p = pow_base(k as nat);
        let v = value_of(s.skip(k));
        assert(p * v == v) by (nonlinear_arith)
            requires
                p == 1,
        ;
    } else {
        let t = s.drop_first();
        lemma_value_split(t, k - 1);
        assert(s.take(k).drop_first() =~= t.take(k - 1));
        assert(s.skip(k) =~= t.skip(k - 1));
        let a = value_of(t.take(k - 1));
        let b = value_of(t.skip(k - 1));
        let p = pow_base((k - 1) as nat);
        assert(pow_base(k as nat) == 1_000_000_000 * p);
        assert(value_of(s.take(k)) == s[0] + 1_000_000_000 * a);
        assert(1_000_000_000 * (a + p * b) == 1_000_000_000 * a + (1_000_000_000 * p) * b)
            by (nonlinear_arith);
        assert(value_of(s) == s[0] + 1_000_000_000 * value_of(t));
        assert(value_of(t) == a + p * b);
        assert(value_of(s.skip(k)) == b);
        assert(pow_base(k as nat) * value_of(s.skip(k)) == (1_000_000_000 * p) * b);
    }
}

/// Replacing one digit.
pub proof fn lemma_value_update(s: Seq<u64>, i: int, x: u64)
    requires
        0 <= i < s.len(),
    ensures
        value_of(s.update(i, x)) + s[i] * pow_base(i as nat) == value_of(s) + x * pow_base(
            i as nat,
        ),
    decreases i,
{
    let t = s.drop_first();
    if i == 0 {
        assert(s.update(0, x).drop_first() =~= t);
        let p = pow_base(i as nat);
        assert(p == 1);
        assert(s[i] * p == s[i] && x * p == x) by (nonlinear_arith)
            requires
                p == 1,
        ;
    } else {
        assert(s.update(i, x).drop_first() =~= t.update(i - 1, x));
        lemma_value_update(t, i - 1, x);
        let p = pow_base((i - 1) as nat);
        assert(pow_base(i as nat) == 1_000_000_000 * p);
        assert(s.update(i, x)[0] == s[0]);
        let a = value_of(t.update(i - 1, x));
        let b = value_of(t);
        assert(a + t[i - 1] * p == b + x * p);
        assert(1_000_000_000 * a + s[i] * (1_000_000_000 * p) == 1_000_000_000 * b + x * (
        1_000_000_000 * p)) by (nonlinear_arith)
            requires
                a + s[i] * p == b + x * p,
        ;
    }
}

/// Dropping a zero most significant digit keeps the value.
pub proof fn lemma_value_drop_zero(s: Seq<u64>)
    requires
        s.len() > 0,
        s[s.len() - 1] == 0,
    ensures
        value_of(s.drop_last()) == value_of(s),
{
    assert(s =~= s.drop_last().push(0));
    lemma_value_push(s.drop_last(), 0);
}

/// A sequence of zeros stands for zero.
pub proof fn lemma_value_all_zero(s: Seq<u64>)
    requires
        forall|i: int| 0 <= i < s.len() ==> s[i] == 0,
    ensures
        value_of(s) == 0,
    decreases s.len(),
{
    if s.len() > 0 {
        lemma_value_all_zero(s.drop_first());
    }
}

/// Zero has only the empty canonical representation.
pub proof fn lemma_value_zero_iff_empty(s: Seq<u64>)
    requires
        no_leading_zero(s),
    ensures
        (value_of(s) == 0) <==> (s.len() == 0),
{
    if s.len() > 0 {
        lemma_value_lower(s);
        lemma_pow_base_pos((s.len() - 1) as nat);
    }
}

/// The lowest digit and the rest are determined by the value.
pub proof fn lemma_value_digit0(s: Seq<u64>)
    requires
        s.len() > 0,
        s[0] < BASE,
    ensures
        s[0] as nat == value_of(s) % 1_000_000_000,
        value_of(s.drop_first()) == value_of(s) / 1_000_000_000,
{
}

/// Canonical representations are unique.
pub proof fn lemma_canonical_unique(s: Seq<u64>, t: Seq<u64>)
    requires
        canonical(s),
        canonical(t),
        value_of(s) == value_of(t),
    ensures
        s == t,
    decreases s.len(),
{
    lemma_value_zero_iff_empty(s);
    lemma_value_zero_iff_empty(t);
    if s.len() > 0 {
        assert(s[0] < BASE);
        assert(t[0] < BASE);
        lemma_value_digit0(s);
        lemma_value_digit0(t);
        let s1 = s.drop_first();
        let t1 = t.drop_first();
        assert(canonical(s1)) by {
            assert forall|i: int| 0 <= i < s1.len() implies s1[i] < BASE by {
                assert(s1[i] == s[i + 1]);
            }
        }
        assert(canonical(t1)) by {
            assert forall|i: int| 0 <= i < t1.len() implies t1[i] < BASE by {
                assert(t1[i] == t[i + 1]);
            }
        }
        lemma_canonical_unique(s1, t1);
        assert(s =~= t) by {
            assert forall|i: int| 0 <= i < s.len() implies s[i] == t[i] by {
                if i > 0 {
                    assert(s[i] == s1[i - 1]);
                    assert(t[i] == t1[i - 1]);
                }
            }
        }
    } else {
        assert(s =~= t);
    }
}

/// Digit `i` of `s`, reading zero past its end.
pub open spec fn digit_at(s: Seq<u64>, i: int) -> nat {
    if 0 <= i < s.len() {
        s[i] as nat
    } else {
        0
    }
}

/// Value of the lowest `i` digits of `s` (all of `s` once `i` passes its end).
pub open spec fn low_value(s: Seq<u64>, i: int) -> nat {
    if i <= s.len() {
        value_of(s.take(i))
    } else {
        value_of(s)
    }
}

pub proof fn lemma_low_value_step(s: Seq<u64>, i: int)
    requires
        0 <= i,
    ensures
        low_value(s, i + 1) == low_value(s, i) + digit_at(s, i) * pow_base(i as nat),
{
    if i < s.len() {
        assert(s.take(i + 1) =~= s.take(i).push(s[i]));
        lemma_value_push(s.take(i), s[i]);
    } else {
        let p = pow_base(i as nat);
        assert(digit_at(s, i) * p == 0) by (nonlinear_arith)
            requires
                digit_at(s, i) == 0,
        ;
        if i == s.len() {
            assert(s.take(i) =~= s);
        }
    }
}

pub proof fn lemma_low_value_zero(s: Seq<u64>)
    ensures
        low_value(s, 0) == 0,
{
    assert(s.take(0) =~= Seq::<u64>::empty());
    assert(value_of(Seq::<u64>::empty()) == 0);
}

pub proof fn lemma_low_value_full(s: Seq<u64>, i: int)
    requires
        i >= s.len(),
    ensures
        low_value(s, i) == value_of(s),
{
    if i == s.len() {
        assert(s.take(i) =~= s);
    }
}

/// A bounded sequence whose value reaches `BASE^(n-1)` has no leading zero.
pub proof fn lemma_no_leading_zero_from_lower(s: Seq<u64>)
    requires
        digits_bounded(s),
        s.len() > 0,
        value_of(s) >= pow_base((s.len() - 1) as nat),
    ensures
        no_leading_zero(s),
{
    if s[s.len() - 1] == 0 {
        lemma_value_drop_zero(s);
        let t = s.drop_last();
        assert(digits_bounded(t)) by {
            assert forall|i: int| 0 <= i < t.len() implies t[i] < BASE by {
                assert(t[i] == s[i]);
            }
        }
        lemma_value_upper(t);
    }
}

/// A canonical sequence is no longer than a bounded one of greater or equal value.
pub proof fn lemma_len_le_from_value(s: Seq<u64>, t: Seq<u64>)
    requires
        no_leading_zero(s),
        digits_bounded(t),
        value_of(s) <= value_of(t),
    ensures
        s.len() <= t.len(),
{
    if s.len() > t.len() {
        lemma_value_lower(s);
        lemma_value_upper(t);
        lemma_pow_base_mono(t.len(), (s.len() - 1) as nat);
    }
}

/// A machine index read as an integer.
pub open spec fn idx(i: usize) -> nat {
    i as nat
}

/// A machine index read as an integer.
pub open spec fn ix(i: usize) -> int {
    i as int
}

/// The natural number before `i` (zero stays zero).
pub open spec fn prev(i: nat) -> nat {
    if i == 0 {
        0
    } else {
        (i - 1) as nat
    }
}

/// Value of the lowest `i` digits.
pub open spec fn prefix_value(s: Seq<u64>, i: nat) -> nat {
    value_of(s.take(i as int))
}

pub proof fn lemma_prefix_step(s: Seq<u64>, i: nat)
    requires
        0 < i <= s.len(),
        digits_bounded(s),
    ensures
        prefix_value(s, i) == prefix_value(s, prev(i)) + s[i - 1] * pow_base(prev(i)),
        prefix_value(s, prev(i)) < pow_base(prev(i)),
{
    let j = (i - 1) as int;
    assert(s.take(i as int) =~= s.take(j).push(s[j]));
    lemma_value_push(s.take(j), s[j]);
    lemma_bounded_subrange(s, 0, j);
    lemma_value_upper(s.take(j));
}

pub proof fn lemma_prefix_full(s: Seq<u64>)
    ensures
        prefix_value(s, s.len()) == value_of(s),
{
    assert(s.take(s.len() as int) =~= s);
}

/// A higher digit that is smaller decides the comparison whatever lies below it.
pub proof fn lemma_order_step(x: nat, y: nat, da: u64, db: u64, p: nat)
    requires
        x < p,
        y < p,
        da < db,
    ensures
        x + da * p < y + db * p,
{
    assert(x + da * p < y + db * p) by (nonlinear_arith)
        requires
            x < p,
            y < p,
            da < db,
            y >= 0,
    ;
}

/// Appends `n` zero digits, which leaves the value unchanged.
pub(crate) fn push_zeros(v: &mut Vec<u64>, n: usize)
    ensures
        final(v)@.len() == old(v)@.len() + n,
        final(v)@.take(old(v)@.len() as int) == old(v)@,
        forall|i: int| old(v)@.len() <= i < final(v)@.len() ==> #[trigger] final(v)@[i] == 0,
        digits_bounded(old(v)@) ==> digits_bounded(final(v)@),
        value_of(final(v)@) == value_of(old(v)@),
{
    let mut k: usize = 0;
    let ghost s = v@;
    while k < n
        invariant
            k <= n,
            v@.len() == s.len() + k,
            v@.take(s.len() as int) == s,
            forall|i: int| s.len() <= i < v@.len() ==> #[trigger] v@[i] == 0,
            digits_bounded(s) ==> digits_bounded(v@),
            value_of(v@) == value_of(s),
        decreases n - k,
    {
        let ghost before = v@;
        v.push(0);
        proof {
            lemma_value_push(before, 0);
            assert(0 * pow_base(before.len()) == 0) by (nonlinear_arith);
            assert(v@.take(s.len() as int) =~= before.take(s.len() as int));
        }
        k = k + 1;
    }
}

/// Any window of a bounded sequence is bounded.
pub proof fn lemma_bounded_subrange(s: Seq<u64>, lo: int, hi: int)
    requires
        digits_bounded(s),
        0 <= lo <= hi <= s.len(),
    ensures
        digits_bounded(s.subrange(lo, hi)),
        lo == 0 ==> digits_bounded(s.take(hi)),
        hi == s.len() ==> digits_bounded(s.skip(lo)),
{
    assert forall|i: int| 0 <= i < s.subrange(lo, hi).len() implies #[trigger] s.subrange(
        lo,
        hi,
    )[i] < BASE by {
        assert(s.subrange(lo, hi)[i] == s[lo + i]);
    }
    if lo == 0 {
        assert(s.take(hi) =~= s.subrange(lo, hi));
    }
    if hi == s.len() {
        assert(s.skip(lo) =~= s.subrange(lo, hi));
    }
}

/// Writing `sum % BASE` into digit `k` and carrying `sum / BASE` to digit `k + 1`
/// adds `sum - s[k]` units of `BASE^k`.
pub proof fn lemma_carry_update(s: Seq<u64>, k: int, sum: u64)
    requires
        0 <= k < s.len(),
    ensures
        value_of(s.update(k, sum % BASE)) + (sum / BASE) * pow_base((k + 1) as nat) == value_of(s)
            + (sum - s[k]) * pow_base(k as nat),
{
    lemma_value_update(s, k, sum % BASE);
    let p = pow_base(k as nat);
    let q = sum / BASE;
    assert(pow_base((k + 1) as nat) == 1_000_000_000 * p);
    assert(sum == 1_000_000_000 * q + sum % BASE);
    assert(sum * p == (sum % BASE) * p + q * (1_000_000_000 * p)) by (nonlinear_arith)
        requires
            sum == 1_000_000_000 * q + sum % BASE,
    ;
    assert((sum - s[k]) * p == sum * p - s[k] * p) by (nonlinear_arith);
}

/// Pushing `sum % BASE` and carrying `sum / BASE` to the next position adds
/// `sum` units of `BASE^len`.
pub proof fn lemma_carry_push(s: Seq<u64>, sum: u64)
    ensures
        value_of(s.push(sum % BASE)) + (sum / BASE) * pow_base(s.len() + 1) == value_of(s) + sum
            * pow_base(s.len()),
{
    lemma_value_push(s, sum % BASE);
    let p = pow_base(s.len());
    let q = sum / BASE;
    assert(pow_base(s.len() + 1) == 1_000_000_000 * p);
    assert(sum == 1_000_000_000 * q + sum % BASE);
    assert(sum * p == (sum % BASE) * p + q * (1_000_000_000 * p)) by (nonlinear_arith)
        requires
            sum == 1_000_000_000 * q + sum % BASE,
    ;
}

/// `x * BASE^k` is zero when `x` is.
pub proof fn lemma_zero_times(x: int, k: nat)
    requires
        x == 0,
    ensures
        x * pow_base(k) == 0,
        pow_base(k) * x == 0,
{
    assert(x * pow_base(k) == 0 && pow_base(k) * x == 0) by (nonlinear_arith)
        requires
            x == 0,
    ;
}

/// A canonical sequence placed at offset `off` below `BASE^l` fits in `l` digits.
pub proof fn lemma_offset_fits(s: Seq<u64>, off: nat, l: nat)
    requires
        no_leading_zero(s),
        off <= l,
        value_of(s) * pow_base(off) < pow_base(l),
    ensures
        off + s.len() <= l,
{
    if s.len() > 0 {
        lemma_value_lower(s);
        let top = (s.len() - 1) as nat;
        lemma_pow_base_add(top, off);
        let x = value_of(s);
        let pt = pow_base(top);
        let po = pow_base(off);
        assert(pt * po <= x * po) by (nonlinear_arith)
            requires
                pt <= x,
                po >= 0,
        ;
        if off + s.len() > l {
            lemma_pow_base_mono(l, top + off);
        }
    }
}

/// Order of the lowest `i` digits of two sequences, decided at the most
/// significant position where they differ.
pub open spec fn top_order(a: Seq<u64>, b: Seq<u64>, i: nat) -> Ordering
    decreases i,
{
    if i == 0 {
        Ordering::Equal
    } else if a[i - 1] < b[i - 1] {
        Ordering::Less
    } else if a[i - 1] > b[i - 1] {
        Ordering::Greater
    } else {
        top_order(a, b, prev(i))
    }
}

/// Order of two digit sequences: the shorter first, and at equal lengths the
/// most significant differing digit decides.
pub open spec fn digit_order(a: Seq<u64>, b: Seq<u64>) -> Ordering {
    if a.len() < b.len() {
        Ordering::Less
    } else if a.len() > b.len() {
        Ordering::Greater
    } else {
        top_order(a, b, a.len())
    }
}

pub proof fn lemma_top_order(a: Seq<u64>, b: Seq<u64>, i: nat)
    requires
        a.len() == b.len(),
        digits_bounded(a),
        digits_bounded(b),
        i <= a.len(),
    ensures
        (top_order(a, b, i) == Ordering::Less) == (prefix_value(a, i) < prefix_value(b, i)),
        (top_order(a, b, i) == Ordering::Equal) == (prefix_value(a, i) == prefix_value(b, i)),
        (top_order(a, b, i) == Ordering::Greater) == (prefix_value(a, i) > prefix_value(b, i)),
    decreases i,
{
    if i == 0 {
        assert(a.take(0) =~= Seq::<u64>::empty());
        assert(b.take(0) =~= Seq::<u64>::empty());
        assert(value_of(Seq::<u64>::empty()) == 0);
    } else {
        lemma_top_order(a, b, prev(i));
        lemma_prefix_step(a, i);
        lemma_prefix_step(b, i);
        let p = pow_base(prev(i));
        let x = prefix_value(a, prev(i));
        let y = prefix_value(b, prev(i));
        if a[i - 1] < b[i - 1] {
            lemma_order_step(x, y, a[i - 1], b[i - 1], p);
        } else if a[i - 1] > b[i - 1] {
            lemma_order_step(y, x, b[i - 1], a[i - 1], p);
        }
    }
}

/// For canonical sequences the digit order is the order of their values.
pub proof fn lemma_digit_order(a: Seq<u64>, b: Seq<u64>)
    requires
        canonical(a),
        canonical(b),
    ensures
        (digit_order(a, b) == Ordering::Less) == (value_of(a) < value_of(b)),
        (digit_order(a, b) == Ordering::Equal) == (value_of(a) == value_of(b)),
        (digit_order(a, b) == Ordering::Greater) == (value_of(a) > value_of(b)),
{
    if value_of(a) <= value_of(b) {
        lemma_len_le_from_value(a, b);
    }
    if value_of(b) <= value_of(a) {
        lemma_len_le_from_value(b, a);
    }
    if a.len() == b.len() {
        lemma_top_order(a, b, a.len());
        lemma_prefix_full(a);
        lemma_prefix_full(b);
    }
}

} // verus!
