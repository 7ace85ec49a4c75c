use bigint_rs::arithmetic::{add, mul, sub};
use bigint_rs::karatsuba::karatsuba_mul;
use bigint_rs::modular::{mod_add, mod_exp, mod_inverse, mod_mul, mod_rem};
use bigint_rs::primality::{gcd, is_probable_prime};
use bigint_rs::BigInt;

fn big(s: &str) -> BigInt {
    BigInt::from_str_radix(s, 10)
}

#[test]
fn add_then_sub_restores() {
    let a = big("-123456789012345678901234567890");
    let b = big("987654321098765432109876543210");
    let s = add(&a, &b);
    assert_eq!(s, big("864197532086419753208641975320"));
    assert_eq!(sub(&s, &b), a);
}

#[test]
fn sub_of_mixed_signs() {
    assert_eq!(sub(&BigInt::from(-5), &BigInt::from(7)), BigInt::from(-12));
    assert_eq!(sub(&BigInt::from(5), &BigInt::from(-7)), BigInt::from(12));
    assert_eq!(sub(&BigInt::from(-5), &BigInt::from(-7)), BigInt::from(2));
    assert_eq!(add(&BigInt::from(-5), &BigInt::from(5)), BigInt::zero());
}

#[test]
fn multiplication_signs() {
    assert_eq!(mul(&BigInt::from(-12), &BigInt::from(34)), BigInt::from(-408));
    assert_eq!(mul(&BigInt::from(-12), &BigInt::from(-34)), BigInt::from(408));
    assert_eq!(mul(&BigInt::from(-12), &BigInt::zero()), BigInt::zero());
    assert!(!mul(&BigInt::from(-12), &BigInt::zero()).is_negative());
}

#[test]
fn karatsuba_large_operands() {
    let x = big(&"9".repeat(60));
    let y = big(&format!("{}{}", "8".repeat(45), "7".repeat(10)));
    let expected = big("8888888888888888888888888888888888888888888887777777776999991111111111111111111111111111111111111111111112222222223");
    assert_eq!(karatsuba_mul(&x, &y), expected);
    assert_eq!(x.schoolbook_mul(&y), expected);
    assert_eq!(karatsuba_mul(&-&x, &y), -&expected);
}

#[test]
fn division_signs() {
    let (q, r) = BigInt::from(-7).div_rem(&BigInt::from(2));
    assert_eq!(q, BigInt::from(-3));
    assert_eq!(r, BigInt::from(-1));
    let (q, r) = BigInt::from(7).div_rem(&BigInt::from(-2));
    assert_eq!(q, BigInt::from(-3));
    assert_eq!(r, BigInt::from(1));
    let (q, r) = BigInt::from(3).div_rem(&BigInt::from(10));
    assert_eq!(q, BigInt::zero());
    assert_eq!(r, BigInt::from(3));
}

#[test]
fn division_exact_with_opposite_signs() {
    let (q, r) = BigInt::from(-100).div_rem(&BigInt::from(25));
    assert_eq!(q, BigInt::from(-4));
    assert_eq!(r, BigInt::zero());
    let (q, r) = BigInt::from(100).div_rem(&BigInt::from(-25));
    assert_eq!(q, BigInt::from(-4));
    assert_eq!(r, BigInt::zero());
    let (q, r) = BigInt::from(-100).div_rem(&BigInt::from(-25));
    assert_eq!(q, BigInt::from(4));
    assert_eq!(r, BigInt::zero());
    let (q, r) = BigInt::zero().div_rem(&BigInt::from(-25));
    assert_eq!(q, BigInt::zero());
    assert!(!q.is_negative());
    assert_eq!(r, BigInt::zero());
}

#[test]
fn division_large() {
    let a = big("1111111110111111111011111111100");
    let b = big("123456789012345678901234567890");
    let (q, r) = a.div_rem(&b);
    assert_eq!(q, BigInt::from(9));
    assert_eq!(r, big("9000000000900000000090"));
    assert_eq!(add(&mul(&q, &b), &r), a);
}

#[test]
fn parse_whitespace_sign_and_zeros() {
    assert_eq!(BigInt::from_str_radix("  -000123 \n", 10), BigInt::from(-123));
    assert_eq!(BigInt::from_str_radix("-0", 10), BigInt::zero());
    assert!(!BigInt::from_str_radix("-0", 10).is_negative());
    assert_eq!(BigInt::from_str_radix("", 10), BigInt::zero());
    assert_eq!(BigInt::from_str_radix("+77", 10), BigInt::from(77));
}

#[test]
fn parse_other_radixes() {
    assert_eq!(BigInt::from_str_radix("ff", 16), BigInt::from(255));
    assert_eq!(BigInt::from_str_radix("-1010", 2), BigInt::from(-10));
    assert_eq!(BigInt::from_str_radix("zz", 36), BigInt::from(1295));
    assert_eq!(BigInt::from_str_radix("1g", 16), BigInt::from(16));
}

#[test]
fn display_round_trip() {
    let text = "-1000000000000000000000000000001";
    let n = big(text);
    assert_eq!(n.to_string(), text);
    assert_eq!(BigInt::from(1000000000u64).to_string(), "1000000000");
    assert_eq!(BigInt::zero().to_string(), "0");
    assert_eq!(BigInt::from(i64::MIN).to_string(), "-9223372036854775808");
}

#[test]
fn comparison_with_signs() {
    assert!(BigInt::from(-5) < BigInt::from(3));
    assert!(BigInt::from(-5) < BigInt::from(-3));
    assert!(BigInt::zero() > BigInt::from(-1));
    assert!(big("1000000000000") > big("999999999999"));
    assert_eq!(BigInt::from(-4), -BigInt::from(4));
}

#[test]
fn modular_with_negative_inputs() {
    assert_eq!(mod_rem(&BigInt::from(-14), &BigInt::from(7)), BigInt::zero());
    assert_eq!(mod_add(&BigInt::from(-17), &BigInt::from(2), &BigInt::from(10)), BigInt::from(5));
    assert_eq!(mod_mul(&BigInt::from(-3), &BigInt::from(4), &BigInt::from(5)), BigInt::from(3));
}

#[test]
fn mod_exp_with_large_exponent() {
    let r = mod_exp(&BigInt::from(2), &BigInt::from(1000000000u64), &BigInt::from(1000000007u64));
    assert_eq!(r, BigInt::from(140625001u64));
    let r = mod_exp(&BigInt::from(3), &BigInt::from(1000000005u64), &BigInt::from(1000003u64));
    assert_eq!(r, BigInt::from(449295u64));
    assert_eq!(mod_exp(&BigInt::from(5), &BigInt::zero(), &BigInt::from(7)), BigInt::from(1));
    assert_eq!(mod_exp(&BigInt::from(5), &BigInt::from(3), &BigInt::from(1)), BigInt::zero());
}

#[test]
fn mod_inverse_values() {
    let inv = mod_inverse(&BigInt::from(7), &BigInt::from(1000000007u64)).unwrap();
    assert_eq!(inv, BigInt::from(142857144u64));
    let inv = mod_inverse(&BigInt::from(-3), &BigInt::from(7)).unwrap();
    assert_eq!(inv, BigInt::from(2));
    assert_eq!(mod_inverse(&BigInt::from(5), &BigInt::from(1)).unwrap(), BigInt::zero());
    assert!(mod_inverse(&BigInt::from(6), &BigInt::from(9)).is_none());
}

#[test]
fn gcd_exact_values() {
    let a = big("123456789012345678901234567890");
    let b = big("987654321098765432109876543210");
    assert_eq!(gcd(&a, &b), big("9000000000900000000090"));
    assert_eq!(gcd(&BigInt::from(-48), &BigInt::from(18)), BigInt::from(6));
    assert_eq!(gcd(&BigInt::zero(), &BigInt::zero()), BigInt::zero());
}

#[test]
fn miller_rabin_large_values() {
    assert!(is_probable_prime(&big("2305843009213693951"), 20));
    assert!(is_probable_prime(&big("618970019642690137449562111"), 20));
    assert!(!is_probable_prime(&big("618970019642690137449562113"), 20));
    assert!(!is_probable_prime(&BigInt::from(-7), 20));
    assert!(is_probable_prime(&BigInt::from(3), 0));
}

#[test]
fn conversions() {
    assert_eq!(BigInt::from(u64::MAX), big("18446744073709551615"));
    assert_eq!(BigInt::from(-1i64), BigInt::from(-1i32));
    assert_eq!(BigInt::from(7u32), BigInt::from(7u64));
    assert_eq!(BigInt::from(-42).abs(), BigInt::from(42));
    assert_eq!(BigInt::from(-42).clone(), BigInt::from(-42));
}
