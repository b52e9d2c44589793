use toy_pkc::arith::{efficient_exponentials_mod, modular_inverse};
use toy_pkc::error::CryptoError;

fn naive_pow_mod(a: u64, d: u64, n: u64) -> u64 {
    let mut acc: u128 = 1 % n as u128;
    for _ in 0..d {
        acc = acc * (a as u128) % (n as u128);
    }
    acc as u64
}

fn gcd(a: u64, b: u64) -> u64 {
    if b == 0 {
        a
    } else {
        gcd(b, a % b)
    }
}

#[test]
fn pow_mod_matches_repeated_multiplication() {
    for n in 1..40u64 {
        for a in 0..50u64 {
            for d in 0..30u64 {
                assert_eq!(efficient_exponentials_mod(a, d, n), naive_pow_mod(a, d, n));
            }
        }
    }
}

#[test]
fn pow_mod_known_values() {
    assert_eq!(efficient_exponentials_mod(4, 13, 497), 445);
    assert_eq!(efficient_exponentials_mod(2, 10, 1000), 24);
    assert_eq!(efficient_exponentials_mod(65, 17, 3233), 2790);
    assert_eq!(efficient_exponentials_mod(2790, 2753, 3233), 65);
}

#[test]
fn pow_mod_zero_exponent_is_one() {
    assert_eq!(efficient_exponentials_mod(12345, 0, 97), 1);
    assert_eq!(efficient_exponentials_mod(0, 0, 97), 1);
}

#[test]
fn pow_mod_of_multiple_of_modulus_is_zero() {
    assert_eq!(efficient_exponentials_mod(97, 5, 97), 0);
    assert_eq!(efficient_exponentials_mod(194, 1, 97), 0);
}

#[test]
fn pow_mod_large_modulus_does_not_overflow() {
    let n = u64::MAX - 58; // the largest prime below 2^64
    assert_eq!(efficient_exponentials_mod(n - 1, 2, n), 1);
    assert_eq!(efficient_exponentials_mod(3, n - 1, n), 1);
}

#[test]
fn mod_inverse_known_values() {
    assert_eq!(modular_inverse(3, 11), Ok(4));
    assert_eq!(modular_inverse(17, 3120), Ok(2753));
    assert_eq!(modular_inverse(17, 780), Ok(413));
    assert_eq!(modular_inverse(10, 17), Ok(12));
}

#[test]
fn mod_inverse_not_invertible() {
    assert_eq!(modular_inverse(6, 9), Err(CryptoError::NotInvertible));
    assert_eq!(modular_inverse(0, 7), Err(CryptoError::NotInvertible));
    assert_eq!(modular_inverse(3, 12), Err(CryptoError::NotInvertible));
}

#[test]
fn mod_inverse_agrees_with_gcd() {
    for n in 1..120u64 {
        for a in 0..150u64 {
            match modular_inverse(a, n) {
                Ok(x) => {
                    assert_eq!(gcd(a, n), 1);
                    assert!(x < n);
                    assert_eq!((a as u128 * x as u128) % n as u128, 1 % n as u128);
                }
                Err(e) => {
                    assert_eq!(e, CryptoError::NotInvertible);
                    assert_ne!(gcd(a, n), 1);
                }
            }
        }
    }
}

#[test]
fn mod_inverse_large_operands() {
    let n = u64::MAX - 58;
    let a = 0x1234_5678_9abc_def0u64;
    let x = modular_inverse(a, n).unwrap();
    assert_eq!((a as u128 * x as u128) % n as u128, 1);
}
