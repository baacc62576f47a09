use mal::geometry::{
    geometric_hash, is_golden_prime, is_quranic_fibonacci, quranic_fibonacci_sequence, standard_fibonacci,
    ABJAD_PI_DENOMINATOR, ABJAD_PI_NUMERATOR, QURANIC_FIBONACCI,
};

#[test]
fn test_quranic_fibonacci() {
    assert_eq!(QURANIC_FIBONACCI[0], 12);
    assert_eq!(QURANIC_FIBONACCI[1], 21);
    assert_eq!(QURANIC_FIBONACCI[2], 33);
    for i in 2..QURANIC_FIBONACCI.len() {
        assert_eq!(
            QURANIC_FIBONACCI[i],
            QURANIC_FIBONACCI[i - 1] + QURANIC_FIBONACCI[i - 2]
        );
    }
    assert!(is_quranic_fibonacci(12));
    assert!(is_quranic_fibonacci(21));
    assert!(is_quranic_fibonacci(33));
    assert!(!is_quranic_fibonacci(13));
    let seq = quranic_fibonacci_sequence(0, 5);
    assert_eq!(seq.len(), 5);
    assert_eq!(seq[0], 12);
    assert_eq!(seq[1], 21);
    assert_eq!(seq[2], 33);
    assert_eq!(standard_fibonacci(0), 0);
    assert_eq!(standard_fibonacci(1), 1);
    assert_eq!(standard_fibonacci(10), 55);
}

#[test]
fn sequence_continues_past_the_table() {
    let seq = quranic_fibonacci_sequence(14, 4);
    assert_eq!(seq, vec![10713, 17334, 28047, 45381]);
    let from_start = quranic_fibonacci_sequence(0, 18);
    assert_eq!(from_start[15], 17334);
    assert_eq!(from_start[16], 28047);
    assert_eq!(from_start[17], 45381);
    assert!(quranic_fibonacci_sequence(16, 3).is_empty());
    assert!(quranic_fibonacci_sequence(3, 0).is_empty());
}

#[test]
fn test_geometric_hash() {
    let hash1 = geometric_hash("بسم الله");
    let hash2 = geometric_hash("بسم الله");
    assert_eq!(hash1, hash2);
    let hash3 = geometric_hash("الحمد لله");
    assert_ne!(hash1, hash3);
    assert_eq!(geometric_hash("محمد"), geometric_hash("محمد"));
    assert!(is_golden_prime(2));
    assert!(is_golden_prime(3));
    assert!(is_golden_prime(5));
    assert!(is_golden_prime(7));
    assert!(!is_golden_prime(4));
    assert!(!is_golden_prime(9));
}

#[test]
fn hash_ignores_non_letters_and_mixes_letters() {
    assert_eq!(geometric_hash(""), 0x123456789ABCDEF0);
    assert_eq!(geometric_hash("abc"), 0x123456789ABCDEF0);
    let seed: u64 = 0x123456789ABCDEF0;
    let m = seed.wrapping_mul(0x9E3779B97F4A7C15).wrapping_add(1);
    assert_eq!(geometric_hash("ا"), m.rotate_left(5));
    assert!(geometric_hash("الله") > 0);
}

#[test]
fn golden_prime_larger_values() {
    assert!(is_golden_prime(97));
    assert!(!is_golden_prime(25));
    assert!(!is_golden_prime(49));
    assert!(!is_golden_prime(0));
    assert!(!is_golden_prime(1));
    assert!(is_golden_prime(1_000_000_007));
    assert!(!is_golden_prime(1_000_000_007 * 3));
    assert_eq!(ABJAD_PI_NUMERATOR, 263857);
    assert_eq!(ABJAD_PI_DENOMINATOR, 84000);
}
