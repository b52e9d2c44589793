//! One interface over both schemes: keys tagged by scheme, and encryption
//! and decryption that dispatch on the key.
use vstd::prelude::*;

use crate::error::CryptoError;
use crate::paillier::{
    generate_paillier_keys, is_drawn_paillier_key_pair, paillier_decrypt, paillier_decrypt_spec,
    paillier_encrypt, paillier_encrypt_spec, paillier_lambda_invertible, PaillierKeyPair,
    PaillierPrivateKey, PaillierPublicKey,
};
use crate::rsa::{
    generate_rsa_keys, has_two_primes, is_drawn_prime, is_drawn_rsa_key_pair, rsa_decrypt,
    rsa_encrypt, rsa_exponent_invertible, RsaKeyPair, RsaPrivateKey, RsaPublicKey,
};
use vstd::arithmetic::power::pow;

verus! {

/// Which cryptosystem to build keys for.
#[derive(Debug, Clone, Copy, PartialEq, Eq, Structural)]
pub enum Scheme {
    Rsa,
    Paillier,
}

/// A public key of either scheme.
#[derive(Debug, Clone, Copy, PartialEq, Eq, Structural)]
pub enum PublicKey {
    Rsa(RsaPublicKey),
    Paillier(PaillierPublicKey),
}

/// A private key of either scheme.
#[derive(Debug, Clone, Copy, PartialEq, Eq, Structural)]
pub enum PrivateKey {
    Rsa(RsaPrivateKey),
    Paillier(PaillierPrivateKey),
}

/// The modulus of a public key.
pub open spec fn public_modulus(key: PublicKey) -> nat {
    match key {
        PublicKey::Rsa(k) => k.n as nat,
        PublicKey::Paillier(k) => k.n as nat,
    }
}

/// A Paillier key needs `n^2` to fit in a word; an RSA key needs nothing.
pub open spec fn public_key_fits(key: PublicKey) -> bool {
    match key {
        PublicKey::Rsa(_) => true,
        PublicKey::Paillier(k) => k.n > 0 && k.n * k.n <= u64::MAX,
    }
}

/// Decryption needs a positive modulus, and for Paillier `n^2` in a word.
pub open spec fn private_key_fits(key: PrivateKey) -> bool {
    match key {
        PrivateKey::Rsa(k) => k.n > 0,
        PrivateKey::Paillier(k) => k.n > 0 && k.n * k.n <= u64::MAX,
    }
}

/// Encryption under the key's scheme: `m^e mod n` for RSA, and
/// `g^m * r^n mod n^2` for Paillier with the randomness `r`.
pub open spec fn encrypt_spec(key: PublicKey, m: nat, r: nat) -> int {
    match key {
        PublicKey::Rsa(k) => pow(m as int, k.e as nat) % (k.n as int),
        PublicKey::Paillier(k) => paillier_encrypt_spec(k, m, r),
    }
}

/// Decryption under the key's scheme.
pub open spec fn decrypt_spec(key: PrivateKey, c: int) -> int {
    match key {
        PrivateKey::Rsa(k) => pow(c, k.d as nat) % (k.n as int),
        PrivateKey::Paillier(k) => paillier_decrypt_spec(k, c),
    }
}

/// Encrypts a plaintext below the key's modulus; `r` is the randomness of
/// Paillier and is not used by RSA.
pub fn encrypt(m: u64, key: &PublicKey, r: u64) -> (c: Result<u64, CryptoError>)
    requires
        public_key_fits(*key),
    ensures
        m >= public_modulus(*key) ==> c == Err::<u64, CryptoError>(
            CryptoError::PlaintextOutOfRange,
        ),
        m < public_modulus(*key) ==> c == Ok::<u64, CryptoError>(
            encrypt_spec(*key, m as nat, r as nat) as u64,
        ),
{
    match key {
        PublicKey::Rsa(k) => rsa_encrypt(m, k),
        PublicKey::Paillier(k) => paillier_encrypt(m, k, r),
    }
}

/// Decrypts a ciphertext under the key's scheme.
pub fn decrypt(c: u64, key: &PrivateKey) -> (m: u64)
    requires
        private_key_fits(*key),
    ensures
        m == decrypt_spec(*key, c as int),
{
    match key {
        PrivateKey::Rsa(k) => rsa_decrypt(c, k),
        PrivateKey::Paillier(k) => paillier_decrypt(c, k),
    }
}

/// `keys` are the halves of a key pair of `scheme` built from two distinct
/// primes drawn from `[threshold, bound]` (for RSA with exponent `e`).
pub open spec fn is_drawn_key_pair(
    scheme: Scheme,
    keys: (PublicKey, PrivateKey),
    threshold: u64,
    bound: u64,
    rounds: usize,
    e: u64,
) -> bool {
    match scheme {
        Scheme::Rsa => exists|k: RsaKeyPair|
            #[trigger] is_drawn_rsa_key_pair(k, threshold, bound, rounds, e) && keys == (
            PublicKey::Rsa(k.public),
            PrivateKey::Rsa(k.private),
            ),
        Scheme::Paillier => exists|k: PaillierKeyPair|
            #[trigger] is_drawn_paillier_key_pair(k, threshold, bound, rounds) && keys == (
            PublicKey::Paillier(k.public),
            PrivateKey::Paillier(k.private),
            ),
    }
}

/// The two primes `p` and `q` give no key pair of `scheme`: for RSA, `e`
/// is not coprime to `lcm(p - 1, q - 1)`; for Paillier, that lcm is not
/// coprime to `p * q`.
pub open spec fn primes_without_key(scheme: Scheme, p: nat, q: nat, e: nat) -> bool {
    match scheme {
        Scheme::Rsa => !rsa_exponent_invertible(e, p, q),
        Scheme::Paillier => !paillier_lambda_invertible(p, q),
    }
}

/// A key pair of the chosen scheme from two distinct primes drawn from
/// `[threshold, bound]`; `e` is the RSA public exponent and is not used by
/// Paillier. The bound keeps the modulus (for Paillier its square) in a word.
pub fn generate_keys(scheme: Scheme, bound: u64, threshold: u64, rounds: usize, e: u64) -> (r:
    Result<(PublicKey, PrivateKey), CryptoError>)
    requires
        scheme == Scheme::Rsa ==> bound <= 0xffff_ffff,
        scheme == Scheme::Paillier ==> bound <= 0xffff,
    ensures
        threshold >= bound ==> r == Err::<(PublicKey, PrivateKey), CryptoError>(
            CryptoError::InvalidRange,
        ),
        r matches Ok(keys) ==> {
            &&& public_key_fits(keys.0)
            &&& private_key_fits(keys.1)
            &&& is_drawn_key_pair(scheme, keys, threshold, bound, rounds, e)
        },
        r matches Err(err) ==> err == CryptoError::InvalidRange || err
            == CryptoError::KeyGenerationFailed,
        threshold < bound && has_two_primes(threshold as nat, bound as nat) ==> r is Ok || r
            == Err::<(PublicKey, PrivateKey), CryptoError>(CryptoError::KeyGenerationFailed),
        r == Err::<(PublicKey, PrivateKey), CryptoError>(CryptoError::KeyGenerationFailed)
            ==> exists|p: u64, q: u64|
            p != q && is_drawn_prime(p, threshold, bound, rounds) && is_drawn_prime(
                q,
                threshold,
                bound,
                rounds,
            ) && #[trigger] primes_without_key(scheme, p as nat, q as nat, e as nat),
{
    match scheme {
        Scheme::Rsa => match generate_rsa_keys(bound, threshold, rounds, e) {
            Ok(k) => {
                assert(k.p * k.q > 0) by (nonlinear_arith)
                    requires
                        k.p >= 2,
                        k.q >= 2,
                ;
                let keys = (PublicKey::Rsa(k.public), PrivateKey::Rsa(k.private));
                assert(is_drawn_rsa_key_pair(k, threshold, bound, rounds, e));
                Ok(keys)
            },
            Err(err) => {
                proof {
                    if err == CryptoError::KeyGenerationFailed {
                        let (p, q) = choose|p: u64, q: u64|
                            p != q && is_drawn_prime(p, threshold, bound, rounds) && is_drawn_prime(
                                q,
                                threshold,
                                bound,
                                rounds,
                            ) && !#[trigger] rsa_exponent_invertible(e as nat, p as nat, q as nat);
                        assert(primes_without_key(scheme, p as nat, q as nat, e as nat));
                    }
                }
                Err(err)
            },
        },
        Scheme::Paillier => match generate_paillier_keys(bound, threshold, rounds) {
            Ok(k) => {
                assert(k.public.n * k.public.n <= u64::MAX && k.public.n > 0) by (nonlinear_arith)
                    requires
                        k.public.n == k.p * k.q,
                        k.p <= 0xffff,
                        k.q <= 0xffff,
                        k.p >= 2,
                        k.q >= 2,
                ;
                let keys = (PublicKey::Paillier(k.public), PrivateKey::Paillier(k.private));
                assert(is_drawn_paillier_key_pair(k, threshold, bound, rounds));
                Ok(keys)
            },
            Err(err) => {
                proof {
                    if err == CryptoError::KeyGenerationFailed {
                        let (p, q) = choose|p: u64, q: u64|
                            p != q && is_drawn_prime(p, threshold, bound, rounds) && is_drawn_prime(
                                q,
                                threshold,
                                bound,
                                rounds,
                            ) && !#[trigger] paillier_lambda_invertible(p as nat, q as nat);
                        assert(primes_without_key(scheme, p as nat, q as nat, e as nat));
                    }
                }
                Err(err)
            },
        },
    }
}

} // verus!
