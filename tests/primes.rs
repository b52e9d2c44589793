use toy_pkc::error::CryptoError;
use toy_pkc::primes::{generate_prime, generate_primes_eratosthenes, is_prime, is_prime_with_bases};

fn trial_division(n: u64) -> bool {
    if n < 2 {
        return false;
    }
    let mut d = 2;
    while d * d <= n {
        if n % d == 0 {
            return false;
        }
        d += 1;
    }
    true
}

#[test]
fn sieve_matches_trial_division() {
    let found = generate_primes_eratosthenes(10000, 0);
    let expected: Vec<usize> = (0..10000).filter(|&k| trial_division(k as u64)).collect();
    assert_eq!(found, expected);
    assert_eq!(found.len(), 1229);
}

#[test]
fn sieve_respects_threshold() {
    assert_eq!(generate_primes_eratosthenes(30, 10), vec![11, 13, 17, 19, 23, 29]);
    assert_eq!(generate_primes_eratosthenes(30, 11), vec![13, 17, 19, 23, 29]);
    assert_eq!(generate_primes_eratosthenes(29, 0), vec![2, 3, 5, 7, 11, 13, 17, 19, 23]);
}

#[test]
fn sieve_small_bounds() {
    assert!(generate_primes_eratosthenes(0, 0).is_empty());
    assert!(generate_primes_eratosthenes(1, 0).is_empty());
    assert!(generate_primes_eratosthenes(2, 0).is_empty());
    assert_eq!(generate_primes_eratosthenes(3, 0), vec![2]);
    assert_eq!(generate_primes_eratosthenes(5, 0), vec![2, 3]);
}

#[test]
fn miller_rabin_agrees_with_trial_division() {
    for n in 0..=10000u64 {
        assert_eq!(is_prime(n, 20), trial_division(n), "disagreement at {}", n);
    }
}

#[test]
fn miller_rabin_rejects_carmichael_numbers() {
    for n in [561u64, 1105, 1729, 2465, 2821, 6601, 8911] {
        assert!(!is_prime(n, 20));
    }
}

#[test]
fn miller_rabin_large_prime() {
    assert!(is_prime(u64::MAX - 58, 20));
    assert!(!is_prime(u64::MAX, 20));
    assert!(is_prime(4294967291, 20));
}

#[test]
fn miller_rabin_with_chosen_bases() {
    // 2047 = 23 * 89 is a strong pseudoprime to base 2 but not to base 3.
    assert!(is_prime_with_bases(2047, &vec![2]));
    assert!(!is_prime_with_bases(2047, &vec![2, 3]));
    assert!(is_prime_with_bases(2, &vec![]));
    assert!(is_prime_with_bases(3, &vec![]));
    assert!(!is_prime_with_bases(1, &vec![]));
    assert!(!is_prime_with_bases(4, &vec![]));
    assert!(is_prime_with_bases(9, &vec![]));
    assert!(!is_prime_with_bases(9, &vec![2]));
    assert!(is_prime_with_bases(97, &vec![2, 3, 5, 7, 11, 13]));
}

#[test]
fn generate_prime_in_range() {
    for _ in 0..50 {
        let p = generate_prime(65535, 32768, 20).unwrap();
        assert!(p >= 32768 && p <= 65535);
        assert!(trial_division(p));
    }
}

#[test]
fn generate_prime_rejects_empty_range() {
    assert_eq!(generate_prime(10, 10, 20), Err(CryptoError::InvalidRange));
    assert_eq!(generate_prime(5, 20, 20), Err(CryptoError::InvalidRange));
}

#[test]
fn generate_prime_range_without_prime() {
    // candidates from [24, 27] are 25 and 27
    assert_eq!(generate_prime(27, 24, 20), Err(CryptoError::InvalidRange));
}

#[test]
fn generate_prime_single_candidate_is_deterministic() {
    for _ in 0..100 {
        assert_eq!(generate_prime(10007, 10006, 20), Ok(10007));
        assert_eq!(generate_prime(97, 96, 20), Ok(97));
    }
}

#[test]
fn generate_prime_stays_within_bound() {
    // [27, 28] holds no prime; 29 lies past the bound
    assert_eq!(generate_prime(28, 27, 20), Err(CryptoError::InvalidRange));
    for _ in 0..20 {
        assert_eq!(generate_prime(30, 28, 20), Ok(29));
        let p = generate_prime(100, 90, 20).unwrap();
        assert_eq!(p, 97);
    }
}

#[test]
fn generate_prime_two_is_a_candidate() {
    for _ in 0..20 {
        assert_eq!(generate_prime(2, 1, 20), Ok(2));
        let p = generate_prime(3, 2, 20).unwrap();
        assert!(p == 2 || p == 3);
    }
}
