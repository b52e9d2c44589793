//! Paillier on machine words, with the generator `g = n + 1`: keys from two
//! primes, and encryption and decryption of one integer below the modulus.
use vstd::arithmetic::div_mod::*;
use vstd::arithmetic::power::*;
use vstd::prelude::*;

use crate::arith::{efficient_exponentials_mod, lcm, modular_inverse};
use crate::error::CryptoError;
use crate::number_theory::{
    gcd_spec, is_prime_spec, lcm_spec, lemma_agree_mod_two_primes, lemma_binomial_mod_square,
    lemma_euclid, lemma_fermat, lemma_lcm_multiple,
};
use crate::rsa::{draw_distinct_primes, has_two_primes, is_drawn_prime};

verus! {

/// The public half of a Paillier key: modulus `n` and generator `g`.
#[derive(Debug, Clone, Copy, PartialEq, Eq, Structural)]
pub struct PaillierPublicKey {
    pub n: u64,
    pub g: u64,
}

/// The private half of a Paillier key: modulus `n`, `lambda` and `mu`.
#[derive(Debug, Clone, Copy, PartialEq, Eq, Structural)]
pub struct PaillierPrivateKey {
    pub n: u64,
    pub lambda: u64,
    pub mu: u64,
}

/// A Paillier key pair with the two primes it was built from.
#[derive(Debug, Clone, Copy, PartialEq, Eq, Structural)]
pub struct PaillierKeyPair {
    pub public: PaillierPublicKey,
    pub private: PaillierPrivateKey,
    pub p: u64,
    pub q: u64,
}

/// Paillier's `L(u) = (u - 1) / n`.
pub open spec fn l_function(u: int, n: int) -> int {
    (u - 1) / n
}

/// Paillier encryption of `m` with randomness `r`: `g^m * r^n mod n^2`.
pub open spec fn paillier_encrypt_spec(key: PaillierPublicKey, m: nat, r: nat) -> int {
    (pow(key.g as int, m) * pow(r as int, key.n as nat)) % (key.n * key.n)
}

/// Paillier decryption of `c`: `L(c^lambda mod n^2) * mu mod n`.
pub open spec fn paillier_decrypt_spec(key: PaillierPrivateKey, c: int) -> int {
    (l_function(pow(c, key.lambda as nat) % (key.n * key.n), key.n as int) * key.mu) % (
    key.n as int)
}

/// `k` is the Paillier key pair for primes `p` and `q`: `n = p * q`,
/// `g = n + 1`, `lambda = lcm(p - 1, q - 1)`, and `mu` the inverse of
/// `L(g^lambda mod n^2)` modulo `n`.
pub open spec fn is_paillier_key_pair(k: PaillierKeyPair, p: nat, q: nat) -> bool {
    let n = p * q;
    let lambda = lcm_spec((p - 1) as nat, (q - 1) as nat);
    &&& k.p == p
    &&& k.q == q
    &&& k.public.n == n
    &&& k.public.g == n + 1
    &&& k.private.n == n
    &&& k.private.lambda == lambda
    &&& k.private.mu < n
    &&& (l_function(pow((n + 1) as int, lambda) % ((n * n) as int), n as int) * k.private.mu) % (
    n as int) == 1int % (n as int)
}

/// `(n + 1)^k mod n^2 == 1 + (k mod n) * n`, so `L` of it is `k mod n`.
pub proof fn lemma_generator_power(n: int, k: nat)
    requires
        n >= 2,
    ensures
        pow(n + 1, k) % (n * n) == 1 + ((k as int) % n) * n,
        l_function(pow(n + 1, k) % (n * n), n) == (k as int) % n,
{
    let ki = k as int;
    lemma_binomial_mod_square(n, 1, k);
    assert(1 + 1 * n == n + 1);
    assert(ki * 1 * n == ki * n);
    lemma_fundamental_div_mod(ki, n);
    let small = 1 + (ki % n) * n;
    assert(1 + ki * n == (n * n) * (ki / n) + small) by (nonlinear_arith)
        requires
            ki == n * (ki / n) + ki % n,
            small == 1 + (ki % n) * n,
    ;
    assert(0 < small < n * n) by (nonlinear_arith)
        requires
            small == 1 + (ki % n) * n,
            0 <= ki % n < n,
            n >= 2,
    ;
    lemma_mod_multiples_vanish(ki / n, small, n * n);
    lemma_small_mod(small as nat, (n * n) as nat);
    assert(small - 1 == (ki % n) * n);
    lemma_fundamental_div_mod_converse(small - 1, n, ki % n, 0);
}

/// `lambda = lcm(p - 1, q - 1)` has an inverse modulo `n = p * q`, which is
/// what makes `L(g^lambda mod n^2) = lambda mod n` invertible.
pub open spec fn paillier_lambda_invertible(p: nat, q: nat) -> bool {
    gcd_spec(lcm_spec((p - 1) as nat, (q - 1) as nat) % (p * q), p * q) == 1
}

/// `k` is a Paillier key pair built from two distinct primes drawn from
/// `[threshold, bound]`.
pub open spec fn is_drawn_paillier_key_pair(
    k: PaillierKeyPair,
    threshold: u64,
    bound: u64,
    rounds: usize,
) -> bool {
    &&& k.p != k.q
    &&& is_drawn_prime(k.p, threshold, bound, rounds)
    &&& is_drawn_prime(k.q, threshold, bound, rounds)
    &&& is_paillier_key_pair(k, k.p as nat, k.q as nat)
}

/// The Paillier key pair for primes `p` and `q`. Fails with
/// `KeyGenerationFailed` when `L(g^lambda mod n^2)` has no inverse modulo `n`.
pub fn paillier_keys_from_primes(p: u64, q: u64) -> (r: Result<PaillierKeyPair, CryptoError>)
    requires
        p > 1,
        q > 1,
        p * q < 0xffff_ffff,
    ensures
        r is Ok <==> paillier_lambda_invertible(p as nat, q as nat),
        r matches Ok(k) ==> is_paillier_key_pair(k, p as nat, q as nat),
        r matches Err(err) ==> err == CryptoError::KeyGenerationFailed,
{
    assert((p - 1) * (q - 1) <= p * q && p * q >= 4) by (nonlinear_arith)
        requires
            p > 1,
            q > 1,
    ;
    let n = p * q;
    let lambda = lcm(p - 1, q - 1);
    proof {
        lemma_lcm_multiple((p - 1) as nat, (q - 1) as nat);
    }
    let g = n + 1;
    assert(n * n <= u64::MAX && n * n > 0) by (nonlinear_arith)
        requires
            n < 0xffff_ffff,
            n >= 4,
    ;
    let n2 = n * n;
    let u = efficient_exponentials_mod(g, lambda, n2);
    proof {
        lemma_generator_power(n as int, lambda as nat);
    }
    let l = (u - 1) / n;
    match modular_inverse(l, n) {
        Ok(mu) => {
            proof {
                assert((l * mu) == (mu * l)) by (nonlinear_arith);
            }
            Ok(
                PaillierKeyPair {
                    public: PaillierPublicKey { n, g },
                    private: PaillierPrivateKey { n, lambda, mu },
                    p,
                    q,
                },
            )
        },
        Err(_) => Err(CryptoError::KeyGenerationFailed),
    }
}

/// A Paillier key pair from two distinct primes drawn by `generate_prime`
/// from `[threshold, bound]`, redrawing the second while it equals the first.
/// `KeyGenerationFailed` comes only from primes for which `lambda` is not
/// coprime to `n`.
pub fn generate_paillier_keys(bound: u64, threshold: u64, rounds: usize) -> (r: Result<
    PaillierKeyPair,
    CryptoError,
>)
    requires
        bound <= 0xffff,
    ensures
        threshold >= bound ==> r == Err::<PaillierKeyPair, CryptoError>(
            CryptoError::InvalidRange,
        ),
        r matches Ok(k) ==> is_drawn_paillier_key_pair(k, threshold, bound, rounds),
        r matches Err(err) ==> err == CryptoError::InvalidRange || err
            == CryptoError::KeyGenerationFailed,
        threshold < bound && has_two_primes(threshold as nat, bound as nat) ==> r is Ok || r
            == Err::<PaillierKeyPair, CryptoError>(CryptoError::KeyGenerationFailed),
        r == Err::<PaillierKeyPair, CryptoError>(CryptoError::KeyGenerationFailed) ==> exists|
            p: u64,
            q: u64,
        |
            p != q && is_drawn_prime(p, threshold, bound, rounds) && is_drawn_prime(
                q,
                threshold,
                bound,
                rounds,
            ) && !#[trigger] paillier_lambda_invertible(p as nat, q as nat),
{
    let (p, q) = match draw_distinct_primes(bound, threshold, rounds) {
        Ok(pq) => pq,
        Err(err) => return Err(err),
    };
    assert(p * q < 0xffff_ffff) by (nonlinear_arith)
        requires
            p <= 0xffff,
            q <= 0xffff,
    ;
    paillier_keys_from_primes(p, q)
}

/// Paillier encryption `g^m * r^n mod n^2` of a plaintext below the modulus,
/// with the randomness `r` given by the caller.
pub fn paillier_encrypt(m: u64, key: &PaillierPublicKey, r: u64) -> (c: Result<u64, CryptoError>)
    requires
        key.n > 0,
        key.n * key.n <= u64::MAX,
    ensures
        m >= key.n ==> c == Err::<u64, CryptoError>(CryptoError::PlaintextOutOfRange),
        m < key.n ==> c == Ok::<u64, CryptoError>(
            paillier_encrypt_spec(*key, m as nat, r as nat) as u64,
        ),
{
    if m >= key.n {
        return Err(CryptoError::PlaintextOutOfRange);
    }
    assert(key.n * key.n > 0) by (nonlinear_arith)
        requires
            key.n > 0,
    ;
    let n2 = key.n * key.n;
    let a = efficient_exponentials_mod(key.g, m, n2);
    let b = efficient_exponentials_mod(r, key.n, n2);
    assert((a as u128) * (b as u128) <= u128::MAX) by (nonlinear_arith)
        requires
            a < n2,
            b < n2,
            n2 <= u64::MAX,
    ;
    let c = ((a as u128) * (b as u128) % (n2 as u128)) as u64;
    proof {
        lemma_mul_mod_noop(pow(key.g as int, m as nat), pow(r as int, key.n as nat), n2 as int);
    }
    Ok(c)
}

/// Paillier decryption `L(c^lambda mod n^2) * mu mod n`.
pub fn paillier_decrypt(c: u64, key: &PaillierPrivateKey) -> (m: u64)
    requires
        key.n > 0,
        key.n * key.n <= u64::MAX,
    ensures
        m == paillier_decrypt_spec(*key, c as int),
{
    let n = key.n as u128;
    assert(key.n * key.n > 0) by (nonlinear_arith)
        requires
            key.n > 0,
    ;
    let n2 = key.n * key.n;
    let u = efficient_exponentials_mod(c, key.lambda, n2);
    let mu = key.mu as u128;
    if u == 0 {
        // L(0) is -1: the result is -mu modulo n.
        let m = (n - mu % n) % n;
        proof {
            lemma_fundamental_div_mod(mu as int, n as int);
            lemma_mod_equivalence(n - mu % n, -1 * mu, n as int);
            assert((n - mu % n) - (-1 * mu) == n * (1 + mu / n)) by (nonlinear_arith)
                requires
                    mu == n * (mu / n) + mu % n,
            ;
            lemma_mod_multiples_basic(1 + mu / n, n as int);
            assert(n * (1 + mu / n) == (1 + mu / n) * n) by (nonlinear_arith);
            lemma_fundamental_div_mod_converse(-1, n as int, -1, n - 1);
        }
        return m as u64;
    }
    let l = ((u - 1) / key.n) as u128;
    assert(l * mu <= u128::MAX) by (nonlinear_arith)
        requires
            l <= u64::MAX,
            mu <= u64::MAX,
    ;
    ((l * mu) % n) as u64
}

/// `r^lambda == 1 (mod n)` for `r` divisible by neither prime.
proof fn lemma_lambda_power_is_one(p: nat, q: nat, r: nat)
    requires
        is_prime_spec(p),
        is_prime_spec(q),
        p != q,
        r % p != 0,
        r % q != 0,
    ensures
        pow(r as int, lcm_spec((p - 1) as nat, (q - 1) as nat)) % ((p * q) as int) == 1,
{
    let lambda = lcm_spec((p - 1) as nat, (q - 1) as nat);
    let n = p * q;
    lemma_lcm_multiple((p - 1) as nat, (q - 1) as nat);
    assert(n >= 4) by (nonlinear_arith)
        requires
            n == p * q,
            p >= 2,
            q >= 2,
    ;
    lemma_power_one_mod_prime(p, r, lambda);
    lemma_power_one_mod_prime(q, r, lambda);
    let x = pow(r as int, lambda);
    lemma_mod_mod(x, p as int, q as int);
    assert(q * p == n) by (nonlinear_arith)
        requires
            n == p * q,
    ;
    lemma_mod_mod(x, q as int, p as int);
    lemma_small_mod(1, p);
    lemma_small_mod(1, q);
    lemma_agree_mod_two_primes(p, q, (x % (n as int)) as nat, 1);
}

/// `r^k == 1 (mod p)` when `p - 1` divides `k` and `p` does not divide `r`.
proof fn lemma_power_one_mod_prime(p: nat, r: nat, k: nat)
    requires
        is_prime_spec(p),
        r % p != 0,
        k % ((p - 1) as nat) == 0,
    ensures
        pow(r as int, k) % (p as int) == 1,
{
    let pm1 = (p - 1) as nat;
    let j = k / pm1;
    lemma_fundamental_div_mod(k as int, pm1 as int);
    assert(k == pm1 * j);
    lemma_pow_multiplies(r as int, pm1, j);
    lemma_fermat(r, p);
    lemma_pow_mod_noop(pow(r as int, pm1), j, p as int);
    lemma1_pow(j);
    lemma_small_mod(1, p);
}

/// Decryption of any number congruent to `g^m * r^n` modulo `n^2`, with `r`
/// divisible by neither prime, gives `m mod n`.
proof fn lemma_decrypts_to_exponent(k: PaillierKeyPair, p: nat, q: nat, m: nat, r: nat, c: int)
    requires
        is_prime_spec(p),
        is_prime_spec(q),
        p != q,
        is_paillier_key_pair(k, p, q),
        r % p != 0,
        r % q != 0,
        c % (((p * q) * (p * q)) as int) == (pow((p * q + 1) as int, m) * pow(
            r as int,
            (p * q) as nat,
        )) % (((p * q) * (p * q)) as int),
    ensures
        paillier_decrypt_spec(k.private, c) == (m as int) % ((p * q) as int),
{
    let n = (p * q) as int;
    let nn = n * n;
    let lambda = k.private.lambda as nat;
    let mu = k.private.mu as int;
    assert(n >= 4) by (nonlinear_arith)
        requires
            n == p * q,
            p >= 2,
            q >= 2,
    ;
    assert(nn > 1) by (nonlinear_arith)
        requires
            nn == n * n,
            n >= 4,
    ;
    let a = pow(n + 1, m);
    let b = pow(r as int, n as nat);
    // c^lambda only depends on c modulo n^2
    lemma_pow_mod_noop(c, lambda, nn);
    lemma_pow_mod_noop(a * b, lambda, nn);
    assert(pow(c, lambda) % nn == pow(a * b, lambda) % nn);
    // (a * b)^lambda == g^(m * lambda) * (r^lambda)^n
    lemma_pow_distributes(a, b, lambda);
    lemma_pow_multiplies(n + 1, m, lambda);
    lemma_pow_multiplies(r as int, n as nat, lambda);
    lemma_pow_multiplies(r as int, lambda, n as nat);
    assert((n as nat) * lambda == lambda * (n as nat)) by (nonlinear_arith);
    let s = pow(r as int, lambda);
    assert(pow(b, lambda) == pow(s, n as nat));
    // r^lambda == 1 + t * n, so (r^lambda)^n == 1 (mod n^2)
    lemma_lambda_power_is_one(p, q, r);
    lemma_fundamental_div_mod(s, n);
    let t = s / n;
    assert(s == 1 + t * n) by (nonlinear_arith)
        requires
            s == n * t + s % n,
            s % n == 1,
    ;
    lemma_binomial_mod_square(n, t, n as nat);
    assert(1 + (n as nat) * t * n == nn * t + 1) by (nonlinear_arith)
        requires
            nn == n * n,
            n >= 4,
    ;
    lemma_mod_multiples_vanish(t, 1, nn);
    lemma_small_mod(1, nn as nat);
    assert(pow(s, n as nat) % nn == 1);
    // so c^lambda == g^(m * lambda) (mod n^2)
    let ga = pow(n + 1, m * lambda);
    assert(pow(a * b, lambda) == ga * pow(s, n as nat));
    lemma_mul_mod_noop_right(ga, pow(s, n as nat), nn);
    assert(ga * 1 == ga);
    assert(pow(c, lambda) % nn == ga % nn);
    lemma_generator_power(n, m * lambda);
    lemma_generator_power(n, lambda);
    // L(c^lambda mod n^2) == m * lambda mod n, and lambda * mu == 1 (mod n)
    let l = ((m * lambda) as int) % n;
    assert(paillier_decrypt_spec(k.private, c) == (l * mu) % n);
    lemma_mul_mod_noop_left((m * lambda) as int, mu, n);
    lemma_mul_mod_noop_left(lambda as int, mu, n);
    lemma_small_mod(1, n as nat);
    assert(((lambda as int) * mu) % n == 1);
    assert((m * lambda) * mu == m * (lambda * mu)) by (nonlinear_arith);
    lemma_mul_mod_noop_right(m as int, (lambda as int) * mu, n);
    assert(m * 1 == m);
}

/// Paillier decryption undoes encryption: with a key pair built from
/// distinct primes, every plaintext `m < n` comes back, for any randomness
/// `r` that neither prime divides.
pub proof fn lemma_paillier_round_trip(k: PaillierKeyPair, p: nat, q: nat, m: nat, r: nat)
    requires
        is_prime_spec(p),
        is_prime_spec(q),
        p != q,
        is_paillier_key_pair(k, p, q),
        m < p * q,
        r % p != 0,
        r % q != 0,
    ensures
        paillier_decrypt_spec(k.private, paillier_encrypt_spec(k.public, m, r)) == m,
{
    let n = p * q;
    let nn = n * n;
    assert(nn > 0) by (nonlinear_arith)
        requires
            nn == n * n,
            n == p * q,
            p >= 2,
            q >= 2,
    ;
    let c = paillier_encrypt_spec(k.public, m, r);
    lemma_mod_twice(pow((n + 1) as int, m) * pow(r as int, n), nn as int);
    lemma_decrypts_to_exponent(k, p, q, m, r, c);
    lemma_small_mod(m, n);
}

/// Paillier is additively homomorphic: the product of two ciphertexts modulo
/// `n^2` decrypts to the sum of the plaintexts modulo `n`, for any randomness
/// that neither prime divides.
pub proof fn lemma_paillier_homomorphism(
    k: PaillierKeyPair,
    p: nat,
    q: nat,
    m1: nat,
    m2: nat,
    r1: nat,
    r2: nat,
)
    requires
        is_prime_spec(p),
        is_prime_spec(q),
        p != q,
        is_paillier_key_pair(k, p, q),
        m1 < p * q,
        m2 < p * q,
        r1 % p != 0,
        r1 % q != 0,
        r2 % p != 0,
        r2 % q != 0,
    ensures
        paillier_decrypt_spec(
            k.private,
            (paillier_encrypt_spec(k.public, m1, r1) * paillier_encrypt_spec(k.public, m2, r2)) % (
            k.public.n * k.public.n),
        ) == ((m1 + m2) as int) % (k.public.n as int),
{
    let n = p * q;
    let nn = (n * n) as int;
    assert(nn > 0) by (nonlinear_arith)
        requires
            nn == n * n,
            n == p * q,
            p >= 2,
            q >= 2,
    ;
    let g = (n + 1) as int;
    let x1 = pow(g, m1) * pow(r1 as int, n);
    let x2 = pow(g, m2) * pow(r2 as int, n);
    let c1 = paillier_encrypt_spec(k.public, m1, r1);
    let c2 = paillier_encrypt_spec(k.public, m2, r2);
    let c = (c1 * c2) % nn;
    // the product is congruent to g^(m1 + m2) * (r1 * r2)^n
    lemma_mul_mod_noop(x1, x2, nn);
    lemma_mod_twice(c1 * c2, nn);
    lemma_pow_adds(g, m1, m2);
    lemma_pow_distributes(r1 as int, r2 as int, n);
    assert(x1 * x2 == pow(g, m1 + m2) * pow((r1 * r2) as int, n)) by (nonlinear_arith)
        requires
            x1 == pow(g, m1) * pow(r1 as int, n),
            x2 == pow(g, m2) * pow(r2 as int, n),
            pow(g, m1 + m2) == pow(g, m1) * pow(g, m2),
            pow((r1 * r2) as int, n) == pow(r1 as int, n) * pow(r2 as int, n),
    ;
    // neither prime divides r1 * r2
    if (r1 * r2) % p == 0 {
        lemma_euclid(p, r1, r2);
    }
    if (r1 * r2) % q == 0 {
        lemma_euclid(q, r1, r2);
    }
    lemma_decrypts_to_exponent(k, p, q, m1 + m2, r1 * r2, c);
}

} // verus!
