use exercises::base::{convert_base, from_decimal, parse_input, to_decimal, DigitError, FormatError};
use exercises::coins::dp_rec_mc;
use exercises::distinct::new_count_distinct;
use exercises::fibonacci::odd_fibnacci_sum;
use exercises::primes::{find_max_prime_factor, goldbach_conjecture, is_prime_plus_twice_square, is_prime_u64};

#[test]
fn odd_fibonacci_sums() {
    assert_eq!(odd_fibnacci_sum(0), 0);
    assert_eq!(odd_fibnacci_sum(1), 2);
    assert_eq!(odd_fibnacci_sum(20), 23);
    assert_eq!(odd_fibnacci_sum(21), 44);
    assert_eq!(odd_fibnacci_sum(100), 1 + 1 + 3 + 5 + 13 + 21 + 55 + 89);
    assert_eq!(odd_fibnacci_sum(4000000), 4613732);
    assert_eq!(odd_fibnacci_sum(1836311902), 1485607536);
}

#[test]
fn fewest_bills() {
    assert_eq!(dp_rec_mc(0), 0);
    assert_eq!(dp_rec_mc(1), 1);
    assert_eq!(dp_rec_mc(4), 2);
    assert_eq!(dp_rec_mc(6), 2);
    assert_eq!(dp_rec_mc(40), 2);
    assert_eq!(dp_rec_mc(60), 2);
    assert_eq!(dp_rec_mc(93), 5);
    assert_eq!(dp_rec_mc(230), 3);
}

#[test]
fn convert_between_bases() {
    assert_eq!(convert_base("10(2)", 10), "2");
    assert_eq!(convert_base("9(10)", 2), "1001");
    assert_eq!(convert_base("ff(16)", 10), "255");
    assert_eq!(convert_base("FF(16)", 10), "255");
    assert_eq!(convert_base("1A(16)", 8), "32");
    assert_eq!(convert_base("255(10)", 16), "ff");
    assert_eq!(convert_base("0(10)", 16), "0");
    assert_eq!(convert_base("10(+8)", 10), "8");
}

#[test]
fn convert_reads_through_upper_case() {
    assert_eq!(convert_base("\u{FB00}(16)", 10), "15");
}

#[test]
fn convert_rejects_bad_input() {
    assert_eq!(convert_base("12", 10), "");
    assert_eq!(convert_base("1(1)", 10), "");
    assert_eq!(convert_base("1(17)", 10), "");
    assert_eq!(convert_base("1(10)", 17), "");
    assert_eq!(convert_base("2(2)", 10), "");
    assert_eq!(convert_base("1(2))", 10), "");
    assert_eq!(convert_base("ffffffffffffffffff(16)", 10), "");
}

#[test]
fn parse_input_errors() {
    assert_eq!(parse_input("12"), Err(FormatError::InvalidFormat));
    assert_eq!(parse_input("12)"), Err(FormatError::InvalidFormat));
    assert_eq!(parse_input("12(x)"), Err(FormatError::InvalidBase));
    assert_eq!(parse_input("12(+)"), Err(FormatError::InvalidBase));
    assert_eq!(parse_input("12(8)tail"), Ok(("12", 8)));
}

#[test]
fn digit_errors() {
    assert_eq!(to_decimal("z", 16), Err(DigitError::InvalidDigit));
    assert_eq!(to_decimal("10000000000000000", 16), Err(DigitError::TooLarge));
    assert_eq!(to_decimal("ffffffffffffffff", 16), Ok(u64::MAX));
    assert_eq!(to_decimal("", 10), Ok(0));
    assert_eq!(from_decimal(u64::MAX, 16), "ffffffffffffffff");
}

#[test]
fn distinct_pieces() {
    assert_eq!(new_count_distinct("a,b,c,a,e,cd"), 5);
    assert_eq!(new_count_distinct("a,b,a,,b"), 2);
    assert_eq!(new_count_distinct(""), 0);
    assert_eq!(new_count_distinct(",,,"), 0);
}

#[test]
fn goldbach_exceptions() {
    assert_eq!(goldbach_conjecture(), "5777,5993");
}

#[test]
fn primality() {
    assert!(!is_prime_u64(0));
    assert!(!is_prime_u64(1));
    assert!(is_prime_u64(2));
    assert!(is_prime_u64(3));
    assert!(!is_prime_u64(25));
    assert!(!is_prime_u64(49));
    assert!(is_prime_u64(97));
    assert!(!is_prime_u64(5777));
    assert!(is_prime_u64(1000003));
    assert!(is_prime_plus_twice_square(9));
    assert!(is_prime_plus_twice_square(33));
    assert!(!is_prime_plus_twice_square(5777));
    assert!(!is_prime_plus_twice_square(5993));
}

#[test]
fn largest_prime_factor() {
    assert_eq!(find_max_prime_factor(0), 0);
    assert_eq!(find_max_prime_factor(1), 1);
    assert_eq!(find_max_prime_factor(2), 2);
    assert_eq!(find_max_prime_factor(1024), 2);
    assert_eq!(find_max_prime_factor(97), 97);
    assert_eq!(find_max_prime_factor(13195), 29);
    assert_eq!(find_max_prime_factor(600851475143), 6857);
    assert_eq!(find_max_prime_factor(2 * 1000003), 1000003);
    assert_eq!(find_max_prime_factor(1000003 * 1000003), 1000003 * 1000003);
}
