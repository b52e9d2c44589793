use toy_pkc::error::CryptoError;
use toy_pkc::paillier::{
    generate_paillier_keys, paillier_decrypt, paillier_encrypt, paillier_keys_from_primes,
    PaillierPrivateKey, PaillierPublicKey,
};
use toy_pkc::rsa::{
    draw_distinct_primes, generate_rsa_keys, rsa_decrypt, rsa_encrypt, rsa_keys_from_primes, RsaPrivateKey,
    RsaPublicKey,
};

#[test]
fn rsa_textbook_vector() {
    let public = RsaPublicKey { n: 3233, e: 17 };
    let private = RsaPrivateKey { n: 3233, d: 2753 };
    let c = rsa_encrypt(65, &public).unwrap();
    assert_eq!(c, 2790);
    assert_eq!(rsa_decrypt(c, &private), 65);
}

#[test]
fn rsa_keys_from_textbook_primes() {
    let k = rsa_keys_from_primes(61, 53, 17).unwrap();
    assert_eq!(k.public, RsaPublicKey { n: 3233, e: 17 });
    // lambda(3233) = lcm(60, 52) = 780, and 17 * 413 = 7021 = 9 * 780 + 1
    assert_eq!(k.private, RsaPrivateKey { n: 3233, d: 413 });
    assert_eq!(2753 % 780, 413);
    let c = rsa_encrypt(65, &k.public).unwrap();
    assert_eq!(c, 2790);
    assert_eq!(rsa_decrypt(c, &k.private), 65);
}

#[test]
fn rsa_round_trip_every_message() {
    let k = rsa_keys_from_primes(61, 53, 17).unwrap();
    for m in 0..3233u64 {
        let c = rsa_encrypt(m, &k.public).unwrap();
        assert_eq!(rsa_decrypt(c, &k.private), m);
    }
}

#[test]
fn rsa_generated_keys_round_trip() {
    for _ in 0..20 {
        let k = generate_rsa_keys(65536, 10000, 20, 65537).unwrap();
        assert_ne!(k.p, k.q);
        assert_eq!(k.public.n, k.p * k.q);
        for m in [0u64, 1, 2, 83, 255, 65535, k.public.n - 1] {
            let c = rsa_encrypt(m, &k.public).unwrap();
            assert_eq!(rsa_decrypt(c, &k.private), m);
        }
    }
}

#[test]
fn generated_primes_are_distinct() {
    for _ in 0..1000 {
        let k = generate_rsa_keys(200, 100, 20, 65537).unwrap();
        assert_ne!(k.p, k.q);
    }
}

#[test]
fn rsa_plaintext_out_of_range() {
    let public = RsaPublicKey { n: 3233, e: 17 };
    assert_eq!(rsa_encrypt(3233, &public), Err(CryptoError::PlaintextOutOfRange));
    assert_eq!(rsa_encrypt(u64::MAX, &public), Err(CryptoError::PlaintextOutOfRange));
}

#[test]
fn rsa_exponent_not_coprime() {
    // lcm(6, 12) = 12 shares the factor 3 with e = 3
    assert_eq!(rsa_keys_from_primes(7, 13, 3), Err(CryptoError::KeyGenerationFailed));
}

#[test]
fn rsa_generation_rejects_empty_range() {
    assert_eq!(generate_rsa_keys(100, 100, 20, 17), Err(CryptoError::InvalidRange));
}

#[test]
fn paillier_keys_from_small_primes() {
    let k = paillier_keys_from_primes(17, 19).unwrap();
    assert_eq!(k.public, PaillierPublicKey { n: 323, g: 324 });
    assert_eq!(k.private.n, 323);
    assert_eq!(k.private.lambda, 144);
    // L(g^lambda mod n^2) = lambda mod n = 144, and 144 * mu == 1 (mod 323)
    assert_eq!((144 * k.private.mu) % 323, 1);
    assert_eq!(k.private.mu, 83);
}

#[test]
fn paillier_round_trip_every_message() {
    let k = paillier_keys_from_primes(17, 19).unwrap();
    for m in 0..323u64 {
        let c = paillier_encrypt(m, &k.public, 5).unwrap();
        assert!(c < 323 * 323);
        assert_eq!(paillier_decrypt(c, &k.private), m);
    }
}

#[test]
fn paillier_known_ciphertext() {
    let public = PaillierPublicKey { n: 323, g: 324 };
    // (1 + 323 * 7) * 2^323 mod 323^2
    let c = paillier_encrypt(7, &public, 2).unwrap();
    let expected = (1 + 323 * 7) * toy_pkc::arith::efficient_exponentials_mod(2, 323, 323 * 323)
        % (323 * 323);
    assert_eq!(c, expected);
}

#[test]
fn paillier_additive_homomorphism() {
    for _ in 0..10 {
        let k = generate_paillier_keys(65533, 32768, 20).unwrap();
        let n = k.public.n;
        let n2 = n * n;
        let (m1, m2) = (89u64, n - 3);
        let c1 = paillier_encrypt(m1, &k.public, 17).unwrap();
        let c2 = paillier_encrypt(m2, &k.public, 23).unwrap();
        let product = ((c1 as u128 * c2 as u128) % n2 as u128) as u64;
        assert_eq!(paillier_decrypt(product, &k.private), (m1 + m2) % n);
        assert_eq!(paillier_decrypt(c1, &k.private), m1);
        assert_eq!(paillier_decrypt(c2, &k.private), m2);
    }
}

#[test]
fn paillier_generated_distinct_primes() {
    for _ in 0..20 {
        let k = generate_paillier_keys(0xffff, 32768, 20).unwrap();
        assert_ne!(k.p, k.q);
        assert!(k.p >= 32768 && k.p <= 0xffff && k.q >= 32768 && k.q <= 0xffff);
        assert_eq!(k.public.g, k.public.n + 1);
    }
}

#[test]
fn paillier_plaintext_out_of_range() {
    let public = PaillierPublicKey { n: 323, g: 324 };
    assert_eq!(paillier_encrypt(323, &public, 5), Err(CryptoError::PlaintextOutOfRange));
}

#[test]
fn paillier_lambda_not_invertible() {
    // n = 21, lambda = lcm(2, 6) = 6 shares the factor 3 with n
    assert_eq!(paillier_keys_from_primes(3, 7), Err(CryptoError::KeyGenerationFailed));
}

#[test]
fn paillier_decrypt_degenerate_ciphertext() {
    let private = PaillierPrivateKey { n: 323, lambda: 144, mu: 83 };
    // L(0) = -1, so the result is -83 mod 323
    assert_eq!(paillier_decrypt(0, &private), 240);
}

#[test]
fn distinct_primes_from_a_range_with_two() {
    // [23, 30] holds the primes 23 and 29 only
    for _ in 0..10 {
        let (p, q) = draw_distinct_primes(30, 23, 20).unwrap();
        assert_ne!(p, q);
        assert!((p == 23 && q == 29) || (p == 29 && q == 23));
    }
}

#[test]
fn distinct_primes_need_two_primes() {
    // [22, 28] holds the single prime 23
    assert_eq!(draw_distinct_primes(28, 22, 20), Err(CryptoError::InvalidRange));
    assert_eq!(draw_distinct_primes(28, 28, 20), Err(CryptoError::InvalidRange));
}

#[test]
fn rsa_generation_exponent_never_coprime() {
    // the primes 7, 11, 13 give lambdas 30, 12 and 60, all multiples of 3
    assert_eq!(generate_rsa_keys(14, 6, 20, 3), Err(CryptoError::KeyGenerationFailed));
}

#[test]
fn rsa_generation_small_range_succeeds() {
    for _ in 0..20 {
        let k = generate_rsa_keys(14, 6, 20, 7).unwrap();
        assert_ne!(k.p, k.q);
        let c = rsa_encrypt(5, &k.public).unwrap();
        assert_eq!(rsa_decrypt(c, &k.private), 5);
    }
}
