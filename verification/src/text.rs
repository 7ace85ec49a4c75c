//! The textual forms of integers: what [`BigInt::from_str_radix`](crate::BigInt::from_str_radix)
//! reads and what [`BigInt::to_string`](crate::BigInt::to_string) writes.

use vstd::prelude::*;

verus! {

/// Whitespace as `char::is_whitespace` defines it (the Unicode `White_Space` property).
pub open spec fn is_white(c: char) -> bool {
    ||| c == '\t'
    ||| c == '\n'
    ||| c == '\u{0B}'
    ||| c == '\u{0C}'
    ||| c == '\r'
    ||| c == ' '
    ||| c == '\u{85}'
    ||| c == '\u{A0}'
    ||| c == '\u{1680}'
    ||| ('\u{2000}' <= c && c <= '\u{200A}')
    ||| c == '\u{2028}'
    ||| c == '\u{2029}'
    ||| c == '\u{202F}'
    ||| c == '\u{205F}'
    ||| c == '\u{3000}'
}

/// Drops leading whitespace.
pub open spec fn trim_start(s: Seq<char>) -> Seq<char>
    decreases s.len(),
{
    if s.len() > 0 && is_white(s[0]) {
        trim_start(s.drop_first())
    } else {
        s
    }
}

/// Drops trailing whitespace.
pub open spec fn trim_end(s: Seq<char>) -> Seq<char>
    decreases s.len(),
{
    if s.len() > 0 && is_white(s.last()) {
        trim_end(s.drop_last())
    } else {
        s
    }
}

/// Drops leading `'0'` characters.
pub open spec fn strip_zeros(s: Seq<char>) -> Seq<char>
    decreases s.len(),
{
    if s.len() > 0 && s[0] == '0' {
        strip_zeros(s.drop_first())
    } else {
        s
    }
}

/// The text after trimming whitespace and a leading minus sign.
pub open spec fn unsigned_part(s: Seq<char>) -> Seq<char> {
    let t = trim_end(trim_start(s));
    if t.len() > 0 && t[0] == '-' {
        t.drop_first()
    } else {
        t
    }
}

/// The trimmed text starts with a minus sign.
pub open spec fn has_minus(s: Seq<char>) -> bool {
    let t = trim_end(trim_start(s));
    t.len() > 0 && t[0] == '-'
}

/// The significant digits: the unsigned part without leading zeros.
pub open spec fn significant(s: Seq<char>) -> Seq<char> {
    strip_zeros(unsigned_part(s))
}

/// An ASCII decimal digit.
pub open spec fn is_decimal(c: char) -> bool {
    '0' <= c && c <= '9'
}

/// Value of an ASCII digit character.
pub open spec fn char_value(c: char) -> nat {
    (c as int - '0' as int) as nat
}

/// Decimal value of a string of decimal digits, most significant first.
pub open spec fn decimal_value(s: Seq<char>) -> nat
    decreases s.len(),
{
    if s.len() == 0 {
        0
    } else {
        decimal_value(s.drop_last()) * 10 + char_value(s.last())
    }
}

pub open spec fn all_decimal(s: Seq<char>) -> bool {
    forall|i: int| 0 <= i < s.len() ==> is_decimal(#[trigger] s[i])
}

/// A chunk that `u64::from_str` accepts: an optional `+` and at least one digit.
pub open spec fn chunk_ok(c: Seq<char>) -> bool {
    if c.len() > 0 && c[0] == '+' {
        c.len() > 1 && all_decimal(c.drop_first())
    } else {
        c.len() > 0 && all_decimal(c)
    }
}

/// The number `u64::from_str` reads from an accepted chunk.
pub open spec fn chunk_value(c: Seq<char>) -> nat {
    if c.len() > 0 && c[0] == '+' {
        decimal_value(c.drop_first())
    } else {
        decimal_value(c)
    }
}

/// Start of the last chunk of at most nine characters of `s`.
pub open spec fn chunk_start(len: nat) -> nat {
    if len >= 9 {
        (len - 9) as nat
    } else {
        0
    }
}

/// Every nine-character chunk, counted from the right, is accepted.
pub open spec fn chunks_ok(s: Seq<char>) -> bool
    decreases s.len(),
{
    if s.len() == 0 {
        true
    } else {
        let start = chunk_start(s.len()) as int;
        chunk_ok(s.subrange(start, s.len() as int)) && chunks_ok(s.subrange(0, start))
    }
}

/// Base-10^9 reading of the chunks, counted from the right.
pub open spec fn chunked_value(s: Seq<char>) -> nat
    decreases s.len(),
{
    if s.len() == 0 {
        0
    } else {
        let start = chunk_start(s.len()) as int;
        chunk_value(s.subrange(start, s.len() as int)) + 1_000_000_000 * chunked_value(
            s.subrange(0, start),
        )
    }
}

/// `char::to_digit(radix)`, with characters that are not digits of the radix read as zero.
pub open spec fn radix_digit(c: char, radix: nat) -> nat {
    let v: int = if '0' <= c && c <= '9' {
        c as int - '0' as int
    } else if 'a' <= c && c <= 'z' {
        c as int - 'a' as int + 10
    } else if 'A' <= c && c <= 'Z' {
        c as int - 'A' as int + 10
    } else {
        radix as int
    };
    if v < radix {
        v as nat
    } else {
        0
    }
}

/// The digit symbols of radix 36 in the order of their values, letters in lower case.
pub open spec fn lower_digit_symbols() -> Seq<char> {
    seq!['0', '1', '2', '3', '4', '5', '6', '7', '8', '9', 'a', 'b', 'c', 'd', 'e', 'f', 'g', 'h', 'i', 'j', 'k', 'l', 'm', 'n', 'o', 'p', 'q', 'r', 's', 't', 'u', 'v', 'w', 'x', 'y', 'z']
}

/// The digit symbols of radix 36 in the order of their values, letters in upper case.
pub open spec fn upper_digit_symbols() -> Seq<char> {
    seq!['0', '1', '2', '3', '4', '5', '6', '7', '8', '9', 'A', 'B', 'C', 'D', 'E', 'F', 'G', 'H', 'I', 'J', 'K', 'L', 'M', 'N', 'O', 'P', 'Q', 'R', 'S', 'T', 'U', 'V', 'W', 'X', 'Y', 'Z']
}

/// The code of each digit symbol.
proof fn lemma_digit_symbol_codes()
    ensures
        lower_digit_symbols().len() == 36,
        upper_digit_symbols().len() == 36,
        forall|i: int|
            0 <= i < 36 ==> (#[trigger] lower_digit_symbols()[i]) as int == if i < 10 {
                48 + i
            } else {
                87 + i
            },
        forall|i: int|
            0 <= i < 36 ==> (#[trigger] upper_digit_symbols()[i]) as int == if i < 10 {
                48 + i
            } else {
                55 + i
            },
{
    let lo = lower_digit_symbols();
    let up = upper_digit_symbols();
    assert forall|i: int| 0 <= i < 36 implies (#[trigger] lo[i]) as int == if i < 10 {
        48 + i
    } else {
        87 + i
    } && (up[i]) as int == if i < 10 {
        48 + i
    } else {
        55 + i
    } by {
        if i == 0 {
        } else         if i == 1 {
        } else         if i == 2 {
        } else         if i == 3 {
        } else         if i == 4 {
        } else         if i == 5 {
        } else         if i == 6 {
        } else         if i == 7 {
        } else         if i == 8 {
        } else         if i == 9 {
        } else         if i == 10 {
        } else         if i == 11 {
        } else         if i == 12 {
        } else         if i == 13 {
        } else         if i == 14 {
        } else         if i == 15 {
        } else         if i == 16 {
        } else         if i == 17 {
        } else         if i == 18 {
        } else         if i == 19 {
        } else         if i == 20 {
        } else         if i == 21 {
        } else         if i == 22 {
        } else         if i == 23 {
        } else         if i == 24 {
        } else         if i == 25 {
        } else         if i == 26 {
        } else         if i == 27 {
        } else         if i == 28 {
        } else         if i == 29 {
        } else         if i == 30 {
        } else         if i == 31 {
        } else         if i == 32 {
        } else         if i == 33 {
        } else         if i == 34 {
        } else         if i == 35 {
        } else {
        }
    }
}

/// Digit reading follows `char::to_digit(radix)`: for every `i < radix`, the
/// `i`-th digit symbol reads as `i`, in lower and in upper case alike.
pub proof fn lemma_radix_digit_symbols(radix: nat)
    requires
        2 <= radix <= 36,
    ensures
        forall|i: int| 0 <= i < radix ==> radix_digit(#[trigger] lower_digit_symbols()[i], radix) == i,
        forall|i: int| 0 <= i < radix ==> radix_digit(#[trigger] upper_digit_symbols()[i], radix) == i,
{
    lemma_digit_symbol_codes();
}

/// A character that is none of the first `radix` digit symbols, in either
/// case, is no digit of the radix and reads as zero.
pub proof fn lemma_radix_non_digit(c: char, radix: nat)
    requires
        2 <= radix <= 36,
        forall|i: int|
            0 <= i < radix ==> c != #[trigger] lower_digit_symbols()[i] && c != upper_digit_symbols()[i],
    ensures
        radix_digit(c, radix) == 0,
{
    lemma_digit_symbol_codes();
    let v = radix_digit(c, radix) as int;
    if v != 0 {
        if '0' <= c && c <= '9' {
            assert(lower_digit_symbols()[v] as int == c as int);
        } else if 'a' <= c && c <= 'z' {
            assert(lower_digit_symbols()[v] as int == c as int);
        } else {
            assert(upper_digit_symbols()[v] as int == c as int);
        }
    }
}

/// The upper-case form of an ASCII lower-case letter; other characters are kept.
pub open spec fn ascii_upper(c: char) -> char {
    if 'a' <= c && c <= 'z' {
        (c as int - 32) as char
    } else {
        c
    }
}

/// Digit reading ignores case: a character and its upper-case form read as the
/// same digit in every radix.
pub proof fn lemma_radix_digit_ignores_case(c: char, radix: nat)
    requires
        2 <= radix <= 36,
    ensures
        radix_digit(ascii_upper(c), radix) == radix_digit(c, radix),
{
}

/// The text with every ASCII lower-case letter in upper case.
pub open spec fn upper_text(s: Seq<char>) -> Seq<char> {
    s.map_values(|c: char| ascii_upper(c))
}

/// Reading digits in a radix ignores case: upper-casing every letter leaves
/// the value unchanged (so `"FF"` and `"ff"` read alike).
pub proof fn lemma_radix_value_ignores_case(s: Seq<char>, radix: nat)
    requires
        2 <= radix <= 36,
    ensures
        radix_value(upper_text(s), radix) == radix_value(s, radix),
    decreases s.len(),
{
    if s.len() > 0 {
        assert(upper_text(s).drop_last() =~= upper_text(s.drop_last()));
        lemma_radix_value_ignores_case(s.drop_last(), radix);
        lemma_radix_digit_ignores_case(s.last(), radix);
    }
}

/// Upper-casing commutes with dropping leading whitespace.
proof fn lemma_upper_trim_start(s: Seq<char>)
    ensures
        trim_start(upper_text(s)) == upper_text(trim_start(s)),
    decreases s.len(),
{
    if s.len() > 0 {
        assert(upper_text(s).drop_first() =~= upper_text(s.drop_first()));
        lemma_upper_trim_start(s.drop_first());
    }
}

/// Upper-casing commutes with dropping trailing whitespace.
proof fn lemma_upper_trim_end(s: Seq<char>)
    ensures
        trim_end(upper_text(s)) == upper_text(trim_end(s)),
    decreases s.len(),
{
    if s.len() > 0 {
        assert(upper_text(s).drop_last() =~= upper_text(s.drop_last()));
        lemma_upper_trim_end(s.drop_last());
    }
}

/// Upper-casing commutes with dropping leading zeros.
proof fn lemma_upper_strip_zeros(s: Seq<char>)
    ensures
        strip_zeros(upper_text(s)) == upper_text(strip_zeros(s)),
    decreases s.len(),
{
    if s.len() > 0 {
        assert(upper_text(s).drop_first() =~= upper_text(s.drop_first()));
        lemma_upper_strip_zeros(s.drop_first());
    }
}

/// Upper-casing keeps the sign and maps the significant digits letter by letter.
proof fn lemma_upper_significant(s: Seq<char>)
    ensures
        has_minus(upper_text(s)) == has_minus(s),
        significant(upper_text(s)) == upper_text(significant(s)),
{
    lemma_upper_trim_start(s);
    lemma_upper_trim_end(trim_start(s));
    let t = trim_end(trim_start(s));
    if t.len() > 0 && t[0] == '-' {
        assert(upper_text(t).drop_first() =~= upper_text(t.drop_first()));
    }
    lemma_upper_strip_zeros(unsigned_part(s));
}

/// [`BigInt::from_str_radix`](crate::BigInt::from_str_radix) ignores case in
/// every radix other than ten: a text and its upper-cased form are accepted
/// alike and give the same number.
pub proof fn lemma_parse_ignores_case(s: Seq<char>, radix: u32)
    requires
        2 <= radix <= 36,
        radix != 10,
    ensures
        parse_ok(upper_text(s), radix) == parse_ok(s, radix),
        parsed(upper_text(s), radix) == parsed(s, radix),
{
    lemma_upper_significant(s);
    lemma_radix_value_ignores_case(significant(s), radix as nat);
}

/// Reading in `radix`, most significant first.
pub open spec fn radix_value(s: Seq<char>, radix: nat) -> nat
    decreases s.len(),
{
    if s.len() == 0 {
        0
    } else {
        radix_value(s.drop_last(), radix) * radix + radix_digit(s.last(), radix)
    }
}

/// The text is accepted by [`BigInt::from_str_radix`](crate::BigInt::from_str_radix):
/// in radix 10 each chunk parses; in another radix the radix is one that
/// `char::to_digit` accepts.
pub open spec fn parse_ok(s: Seq<char>, radix: u32) -> bool {
    let u = significant(s);
    u.len() == 0 || if radix == 10 {
        chunks_ok(u)
    } else {
        2 <= radix <= 36
    }
}

/// The magnitude read from the text.
pub open spec fn parsed_magnitude(s: Seq<char>, radix: u32) -> nat {
    let u = significant(s);
    if u.len() == 0 {
        0
    } else if radix == 10 {
        chunked_value(u)
    } else {
        radix_value(u, radix as nat)
    }
}

/// The integer read from the text.
pub open spec fn parsed(s: Seq<char>, radix: u32) -> int {
    if has_minus(s) {
        -parsed_magnitude(s, radix)
    } else {
        parsed_magnitude(s, radix) as int
    }
}

/// The character of a decimal digit.
pub open spec fn digit_char(d: nat) -> char {
    ('0' as int + d) as char
}

/// Decimal numeral of `n` without leading zeros (`"0"` for zero).
pub open spec fn decimal_digits(n: nat) -> Seq<char>
    decreases n,
{
    if n < 10 {
        seq![digit_char(n)]
    } else {
        decimal_digits(n / 10).push(digit_char(n % 10))
    }
}

/// The `k` lowest decimal digits of `n`, zero-padded.
pub open spec fn padded_digits(n: nat, k: nat) -> Seq<char>
    decreases k,
{
    if k == 0 {
        Seq::empty()
    } else {
        padded_digits(n / 10, (k - 1) as nat).push(digit_char(n % 10))
    }
}

/// Decimal numeral of an integer, with a leading `-` when negative.
pub open spec fn decimal_string(x: int) -> Seq<char> {
    if x < 0 {
        seq!['-'] + decimal_digits((-x) as nat)
    } else {
        decimal_digits(x as nat)
    }
}

/// Ten to the `k`.
pub open spec fn pow10(k: nat) -> nat
    decreases k,
{
    if k == 0 {
        1
    } else {
        10 * pow10((k - 1) as nat)
    }
}

/// Writing `hi * 10^k + lo` is writing `hi` and then `lo` padded to `k` digits.
pub proof fn lemma_decimal_concat(hi: nat, lo: nat, k: nat)
    requires
        hi > 0,
        lo < pow10(k),
    ensures
        decimal_digits(hi * pow10(k) + lo) == decimal_digits(hi) + padded_digits(lo, k),
    decreases k,
{
    if k == 0 {
        assert(hi * 1 + lo == hi);
        assert(decimal_digits(hi) + Seq::<char>::empty() =~= decimal_digits(hi));
    } else {
        let p = pow10((k - 1) as nat);
        let n = hi * pow10(k) + lo;
        assert(pow10(k) == 10 * p);
        assert(lo / 10 < p) by (nonlinear_arith)
            requires
                lo < 10 * p,
        ;
        lemma_decimal_concat(hi, lo / 10, (k - 1) as nat);
        assert(n == 10 * (hi * p + lo / 10) + lo % 10) by (nonlinear_arith)
            requires
                n == hi * (10 * p) + lo,
        ;
        assert(n / 10 == hi * p + lo / 10);
        assert(n % 10 == lo % 10);
        assert(hi * p >= 1) by (nonlinear_arith)
            requires
                hi >= 1,
                p >= 1,
        ;
        lemma_pow10_pos((k - 1) as nat);
        assert(n >= 10);
        assert(decimal_digits(n) == decimal_digits(n / 10).push(digit_char(n % 10)));
        assert(decimal_digits(hi) + padded_digits(lo, k) =~= (decimal_digits(hi) + padded_digits(
            lo / 10,
            (k - 1) as nat,
        )).push(digit_char(lo % 10)));
    }
}

pub proof fn lemma_pow10_pos(k: nat)
    ensures
        pow10(k) >= 1,
    decreases k,
{
    if k > 0 {
        lemma_pow10_pos((k - 1) as nat);
    }
}

/// Decimal value of a concatenation.
pub proof fn lemma_decimal_value_concat(s: Seq<char>, t: Seq<char>)
    ensures
        decimal_value(s + t) == decimal_value(s) * pow10(t.len()) + decimal_value(t),
    decreases t.len(),
{
    if t.len() == 0 {
        assert(s + t =~= s);
        assert(decimal_value(s) * 1 == decimal_value(s));
    } else {
        lemma_decimal_value_concat(s, t.drop_last());
        assert((s + t).drop_last() =~= s + t.drop_last());
        assert((s + t).last() == t.last());
        let a = decimal_value(s);
        let p = pow10((t.len() - 1) as nat);
        let b = decimal_value(t.drop_last());
        assert(pow10(t.len()) == 10 * p);
        assert((a * p + b) * 10 == a * (10 * p) + b * 10) by (nonlinear_arith);
    }
}

/// A numeral written by [`decimal_digits`] is all decimal digits, reads back as
/// `n`, and starts with a nonzero digit unless `n` is zero.
pub proof fn lemma_decimal_digits(n: nat)
    ensures
        all_decimal(decimal_digits(n)),
        decimal_value(decimal_digits(n)) == n,
        decimal_digits(n).len() > 0,
        n > 0 ==> decimal_digits(n)[0] != '0',
        n == 0 ==> decimal_digits(n) == seq!['0'],
    decreases n,
{
    if n < 10 {
        let d = decimal_digits(n);
        assert(d == seq![digit_char(n)]);
        assert(digit_char(n) as int == 48 + n);
        assert(d.drop_last() =~= Seq::<char>::empty());
        assert(decimal_value(Seq::<char>::empty()) == 0);
        assert(char_value(d.last()) == n);
        if n == 0 {
            assert(digit_char(0) == '0');
        }
    } else {
        lemma_decimal_digits(n / 10);
        let d = decimal_digits(n);
        let h = decimal_digits(n / 10);
        assert(d == h.push(digit_char(n % 10)));
        assert(d.drop_last() =~= h);
        assert(digit_char(n % 10) as int == 48 + n % 10);
        assert(d[0] == h[0]);
        assert forall|i: int| 0 <= i < d.len() implies is_decimal(#[trigger] d[i]) by {
            if i < h.len() {
                assert(d[i] == h[i]);
            }
        }
    }
}

/// Reading nine-digit chunks from the right is reading the decimal numeral.
pub proof fn lemma_chunked_is_decimal(s: Seq<char>)
    requires
        all_decimal(s),
    ensures
        chunks_ok(s),
        chunked_value(s) == decimal_value(s),
    decreases s.len(),
{
    if s.len() > 0 {
        let start = chunk_start(s.len()) as int;
        let lo = s.subrange(0, start);
        let hi = s.subrange(start, s.len() as int);
        assert(all_decimal(lo)) by {
            assert forall|i: int| 0 <= i < lo.len() implies is_decimal(#[trigger] lo[i]) by {
                assert(lo[i] == s[i]);
            }
        }
        assert(all_decimal(hi)) by {
            assert forall|i: int| 0 <= i < hi.len() implies is_decimal(#[trigger] hi[i]) by {
                assert(hi[i] == s[start + i]);
            }
        }
        assert(is_decimal(hi[0]));
        assert(hi[0] != '+');
        lemma_chunked_is_decimal(lo);
        assert(s =~= lo + hi);
        lemma_decimal_value_concat(lo, hi);
        assert(chunk_value(hi) == decimal_value(hi));
        assert(chunked_value(s) == chunk_value(hi) + 1_000_000_000 * chunked_value(lo));
        if s.len() >= 9 {
            assert(hi.len() == 9);
            reveal_with_fuel(pow10, 10);
            assert(pow10(9) == 1_000_000_000);
            let v = decimal_value(lo);
            assert(v * pow10(9) == 1_000_000_000 * v) by (nonlinear_arith)
                requires
                    pow10(9) == 1_000_000_000,
            ;
        } else {
            assert(lo =~= Seq::<char>::empty());
            assert(decimal_value(lo) == 0);
            assert(chunked_value(lo) == 0);
            assert(0 * pow10(hi.len()) == 0);
        }
    }
}

/// Trimming, sign and zero stripping of a written numeral.
proof fn lemma_significant_of_written(x: int)
    ensures
        has_minus(decimal_string(x)) == (x < 0),
        significant(decimal_string(x)) == if x == 0 {
            Seq::<char>::empty()
        } else {
            decimal_digits(if x < 0 { (-x) as nat } else { x as nat })
        },
{
    let n: nat = if x < 0 { (-x) as nat } else { x as nat };
    lemma_decimal_digits(n);
    let d = decimal_digits(n);
    let w = decimal_string(x);
    assert(is_decimal(d[0]));
    assert(is_decimal(d.last()));
    if x < 0 {
        assert(w[0] == '-');
        assert(w.last() == d.last());
        assert(w.drop_first() =~= d);
    } else {
        assert(w == d);
    }
    assert(!is_white(w[0]));
    assert(trim_start(w) == w);
    assert(!is_white(w.last()));
    assert(trim_end(w) == w);
    assert(unsigned_part(w) == d);
    if x == 0 {
        assert(d.drop_first() =~= Seq::<char>::empty());
        assert(strip_zeros(d) == strip_zeros(Seq::<char>::empty()));
    } else {
        assert(strip_zeros(d) == d);
    }
}

/// Parsing in radix 10 what [`BigInt::to_string`](crate::BigInt::to_string)
/// writes gives back the same integer.
pub proof fn lemma_parse_printed(x: int)
    ensures
        parse_ok(decimal_string(x), 10),
        parsed(decimal_string(x), 10) == x,
{
    lemma_significant_of_written(x);
    let n: nat = if x < 0 { (-x) as nat } else { x as nat };
    lemma_decimal_digits(n);
    if x != 0 {
        lemma_chunked_is_decimal(decimal_digits(n));
    }
}

} // verus!
