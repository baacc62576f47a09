use mal::stdlib::{abjad, math, string};

#[test]
fn test_math_fibonacci() {
    assert_eq!(math::fibonacci(0), 0);
    assert_eq!(math::fibonacci(1), 1);
    assert_eq!(math::fibonacci(10), 55);
    assert_eq!(math::fibonacci(20), 6765);
}

#[test]
fn test_math_factorial() {
    assert_eq!(math::factorial(0), 1);
    assert_eq!(math::factorial(5), 120);
    assert_eq!(math::factorial(10), 3628800);
}

#[test]
fn test_math_gcd_lcm() {
    assert_eq!(math::gcd(48, 18), 6);
    assert_eq!(math::lcm(4, 6), 12);
}

#[test]
fn test_math_prime() {
    assert!(!math::is_prime(0));
    assert!(!math::is_prime(1));
    assert!(math::is_prime(2));
    assert!(math::is_prime(17));
    assert!(!math::is_prime(18));
}

#[test]
fn test_abjad() {
    assert_eq!(abjad::char_value('ا'), Some(1));
    assert_eq!(abjad::char_value('م'), Some(40));
    assert_eq!(abjad::string_value("محمد"), 92);
    assert_eq!(abjad::digital_root(92), 2);
}

#[test]
fn test_string() {
    assert_eq!(string::reverse("abc"), "cba");
    assert!(string::is_palindrome("racecar"));
    assert!(!string::is_palindrome("hello"));
    assert_eq!(string::word_count("hello world"), 2);
}

#[test]
fn fibonacci_largest_in_u64() {
    assert_eq!(math::fibonacci(93), 12200160415121876738);
}

#[test]
fn factorial_twenty() {
    assert_eq!(math::factorial(20), 2432902008176640000);
}

#[test]
fn gcd_with_zero_and_lcm_with_zero() {
    assert_eq!(math::gcd(0, 7), 7);
    assert_eq!(math::gcd(7, 0), 7);
    assert_eq!(math::gcd(0, 0), 0);
    assert_eq!(math::lcm(0, 5), 0);
    assert_eq!(math::lcm(21, 6), 42);
}

#[test]
fn isqrt_floor_values() {
    assert_eq!(math::isqrt(u64::MAX), 0xffff_ffff);
    assert_eq!(math::isqrt(u64::MAX - 1), 0xffff_ffff);
    assert_eq!(math::isqrt(0), 0);
    assert_eq!(math::isqrt(1), 1);
    assert_eq!(math::isqrt(15), 3);
    assert_eq!(math::isqrt(16), 4);
    assert_eq!(math::isqrt(u64::MAX - 1), 4294967295);
}

#[test]
fn primes_odd_composites() {
    assert!(!math::is_prime(9));
    assert!(!math::is_prime(25));
    assert!(math::is_prime(97));
    assert!(math::is_prime(7919));
    assert!(!math::is_prime(7917));
}

#[test]
fn abjad_variants_and_unknown() {
    assert_eq!(abjad::char_value('أ'), Some(1));
    assert_eq!(abjad::char_value('ى'), Some(10));
    assert_eq!(abjad::char_value('غ'), Some(1000));
    assert_eq!(abjad::char_value('x'), None);
    assert_eq!(abjad::string_value("a ب"), 2);
}

#[test]
fn digital_root_examples() {
    assert_eq!(abjad::digital_root(0), 0);
    assert_eq!(abjad::digital_root(9), 9);
    assert_eq!(abjad::digital_root(18), 9);
    assert_eq!(abjad::digital_root(u32::MAX), 3);
}

#[test]
fn strings_unicode_and_spacing() {
    assert_eq!(string::reverse("محمد"), "دمحم");
    assert_eq!(string::reverse(""), "");
    assert!(string::is_palindrome(""));
    assert!(string::is_palindrome("abba"));
    assert_eq!(string::word_count("  a\tb\n c  "), 3);
    assert_eq!(string::word_count("   "), 0);
}

#[test]
fn gcd_is_greatest_common_divisor() {
    let (a, b) = (84u64, 60u64);
    let g = math::gcd(a, b);
    assert_eq!(g, 12);
    for d in 1..=a {
        if a % d == 0 && b % d == 0 {
            assert_eq!(g % d, 0);
        }
    }
}
