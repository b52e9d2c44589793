//! RSA on machine words: keys from two primes, and encryption and
//! decryption of one integer below the modulus.
use vstd::arithmetic::div_mod::*;
use vstd::arithmetic::power::*;
use vstd::prelude::*;

use crate::arith::{efficient_exponentials_mod, lcm, modular_inverse};
use crate::error::CryptoError;
use crate::number_theory::{
    gcd_spec, is_prime_spec, lcm_spec, lemma_lcm_multiple, lemma_pow_identity_mod_two_primes,
};
use crate::primes::{
    generate_prime, is_candidate, is_prime, lemma_even_not_prime, miller_rabin_outcome, RANDOM_DRAWS,
};

verus! {

/// The public half of an RSA key: modulus `n` and exponent `e`.
#[derive(Debug, Clone, Copy, PartialEq, Eq, Structural)]
pub struct RsaPublicKey {
    pub n: u64,
    pub e: u64,
}

/// The private half of an RSA key: modulus `n` and exponent `d`.
#[derive(Debug, Clone, Copy, PartialEq, Eq, Structural)]
pub struct RsaPrivateKey {
    pub n: u64,
    pub d: u64,
}

/// An RSA key pair with the two primes it was built from.
#[derive(Debug, Clone, Copy, PartialEq, Eq, Structural)]
pub struct RsaKeyPair {
    pub public: RsaPublicKey,
    pub private: RsaPrivateKey,
    pub p: u64,
    pub q: u64,
}

/// Carmichael's `lambda(p * q) = lcm(p - 1, q - 1)` for primes `p` and `q`.
pub open spec fn carmichael_lambda(p: nat, q: nat) -> nat {
    lcm_spec((p - 1) as nat, (q - 1) as nat)
}

/// `k` is the RSA key pair for primes `p`, `q` and public exponent `e`:
/// `n = p * q` and `e * d == 1 (mod lambda(n))`, with `d < lambda(n)`.
pub open spec fn is_rsa_key_pair(k: RsaKeyPair, p: nat, q: nat, e: nat) -> bool {
    let lambda = carmichael_lambda(p, q);
    &&& k.p == p
    &&& k.q == q
    &&& k.public.n == p * q
    &&& k.public.e == e
    &&& k.private.n == p * q
    &&& k.private.d < lambda
    &&& (e * k.private.d) % (lambda as int) == 1int % (lambda as int)
}

/// `e` has an inverse modulo `lcm(p - 1, q - 1)`.
pub open spec fn rsa_exponent_invertible(e: nat, p: nat, q: nat) -> bool {
    gcd_spec(e, carmichael_lambda(p, q)) == 1
}

/// `[threshold, bound]` holds two distinct primes.
pub open spec fn has_two_primes(threshold: nat, bound: nat) -> bool {
    exists|c1: nat, c2: nat|
        #![trigger is_prime_spec(c1), is_prime_spec(c2)]
        threshold <= c1 < c2 <= bound && is_prime_spec(c1) && is_prime_spec(c2)
}

/// `p` is a prime drawn from `[threshold, bound]`: a candidate there that
/// the Miller-Rabin test with `rounds` random bases accepted.
pub open spec fn is_drawn_prime(p: u64, threshold: u64, bound: u64, rounds: usize) -> bool {
    &&& p >= 2
    &&& is_candidate(p as nat, threshold as nat, bound as nat)
    &&& miller_rabin_outcome(p, rounds as nat, true)
}

/// `k` is an RSA key pair for exponent `e` built from two distinct primes
/// drawn from `[threshold, bound]`.
pub open spec fn is_drawn_rsa_key_pair(
    k: RsaKeyPair,
    threshold: u64,
    bound: u64,
    rounds: usize,
    e: u64,
) -> bool {
    &&& k.p != k.q
    &&& is_drawn_prime(k.p, threshold, bound, rounds)
    &&& is_drawn_prime(k.q, threshold, bound, rounds)
    &&& is_rsa_key_pair(k, k.p as nat, k.q as nat, e as nat)
}

/// The RSA key pair for primes `p` and `q` and public exponent `e`, with the
/// private exponent `d = e^-1 mod lcm(p - 1, q - 1)`. Fails with
/// `KeyGenerationFailed` when `e` is not coprime to that lcm.
pub fn rsa_keys_from_primes(p: u64, q: u64, e: u64) -> (r: Result<RsaKeyPair, CryptoError>)
    requires
        p > 1,
        q > 1,
        p * q <= u64::MAX,
    ensures
        r is Ok <==> rsa_exponent_invertible(e as nat, p as nat, q as nat),
        r matches Ok(k) ==> is_rsa_key_pair(k, p as nat, q as nat, e as nat),
        r matches Err(err) ==> err == CryptoError::KeyGenerationFailed,
{
    assert((p - 1) * (q - 1) <= p * q) by (nonlinear_arith)
        requires
            p > 1,
            q > 1,
    ;
    let n = p * q;
    let lambda = lcm(p - 1, q - 1);
    proof {
        lemma_lcm_multiple((p - 1) as nat, (q - 1) as nat);
    }
    match modular_inverse(e, lambda) {
        Ok(d) => Ok(
            RsaKeyPair {
                public: RsaPublicKey { n, e },
                private: RsaPrivateKey { n, d },
                p,
                q,
            },
        ),
        Err(_) => Err(CryptoError::KeyGenerationFailed),
    }
}

/// An RSA key pair from two distinct primes drawn by `generate_prime` from
/// `[threshold, bound]`, redrawing the second while it equals the first.
/// `KeyGenerationFailed` comes only from primes to whose `lcm(p - 1, q - 1)`
/// the exponent `e` is not coprime.
pub fn generate_rsa_keys(bound: u64, threshold: u64, rounds: usize, e: u64) -> (r: Result<
    RsaKeyPair,
    CryptoError,
>)
    requires
        bound <= 0xffff_ffff,
    ensures
        threshold >= bound ==> r == Err::<RsaKeyPair, CryptoError>(CryptoError::InvalidRange),
        r matches Ok(k) ==> is_drawn_rsa_key_pair(k, threshold, bound, rounds, e),
        r matches Err(err) ==> err == CryptoError::InvalidRange || err
            == CryptoError::KeyGenerationFailed,
        threshold < bound && has_two_primes(threshold as nat, bound as nat) ==> r is Ok || r
            == Err::<RsaKeyPair, CryptoError>(CryptoError::KeyGenerationFailed),
        r == Err::<RsaKeyPair, CryptoError>(CryptoError::KeyGenerationFailed) ==> exists|
            p: u64,
            q: u64,
        |
            p != q && is_drawn_prime(p, threshold, bound, rounds) && is_drawn_prime(
                q,
                threshold,
                bound,
                rounds,
            ) && !#[trigger] rsa_exponent_invertible(e as nat, p as nat, q as nat),
{
    let (p, q) = match draw_distinct_primes(bound, threshold, rounds) {
        Ok(pq) => pq,
        Err(err) => return Err(err),
    };
    rsa_keys_from_primes(p, q, e)
}

/// Two distinct primes drawn by `generate_prime` from `[threshold, bound]`:
/// the second is redrawn while it equals the first, and after
/// `RANDOM_DRAWS` repeats the candidates of the range are tried in order.
/// The result is `InvalidRange` only when the range does not hold two
/// distinct primes.
pub fn draw_distinct_primes(bound: u64, threshold: u64, rounds: usize) -> (r: Result<
    (u64, u64),
    CryptoError,
>)
    requires
        bound <= 0xffff_ffff,
    ensures
        threshold >= bound ==> r == Err::<(u64, u64), CryptoError>(CryptoError::InvalidRange),
        r matches Ok(pq) ==> {
            &&& pq.0 != pq.1
            &&& is_drawn_prime(pq.0, threshold, bound, rounds)
            &&& is_drawn_prime(pq.1, threshold, bound, rounds)
            &&& pq.0 * pq.1 <= u64::MAX
        },
        r matches Err(err) ==> err == CryptoError::InvalidRange,
        threshold < bound && has_two_primes(threshold as nat, bound as nat) ==> r is Ok,
{
    let p = match generate_prime(bound, threshold, rounds) {
        Ok(p) => p,
        Err(err) => {
            proof {
                if threshold < bound && has_two_primes(threshold as nat, bound as nat) {
                    let (c1, c2) = choose|c1: nat, c2: nat|
                        #![trigger is_prime_spec(c1), is_prime_spec(c2)]
                        threshold <= c1 < c2 <= bound && is_prime_spec(c1) && is_prime_spec(c2);
                    assert(is_prime_spec(c1));
                }
            }
            return Err(err);
        },
    };
    let mut tries: u64 = 0;
    while tries < RANDOM_DRAWS
        invariant
            is_drawn_prime(p, threshold, bound, rounds),
            threshold < bound <= 0xffff_ffff,
        decreases RANDOM_DRAWS - tries,
    {
        match generate_prime(bound, threshold, rounds) {
            Ok(q) => {
                if q != p {
                    assert(p * q <= u64::MAX) by (nonlinear_arith)
                        requires
                            p <= 0xffff_ffff,
                            q <= 0xffff_ffff,
                    ;
                    return Ok((p, q));
                }
            },
            Err(err) => return Err(err),
        }
        tries = tries + 1;
    }
    let mut c: u64 = threshold;
    while c < bound
        invariant
            is_drawn_prime(p, threshold, bound, rounds),
            threshold < bound <= 0xffff_ffff,
            threshold <= c <= bound,
            forall|x: nat| threshold <= x < c && #[trigger] is_prime_spec(x) ==> x == p,
        decreases bound - c,
    {
        if c != p && (c % 2 == 1 || c == 2) && is_prime(c, rounds) {
            assert(p * c <= u64::MAX) by (nonlinear_arith)
                requires
                    p <= 0xffff_ffff,
                    c <= 0xffff_ffff,
            ;
            return Ok((p, c));
        }
        proof {
            if c % 2 == 0 && c != 2 {
                lemma_even_not_prime(c as nat);
            }
        }
        c = c + 1;
    }
    if bound != p && (bound % 2 == 1 || bound == 2) && is_prime(bound, rounds) {
        assert(p * bound <= u64::MAX) by (nonlinear_arith)
            requires
                p <= 0xffff_ffff,
                bound <= 0xffff_ffff,
        ;
        return Ok((p, bound));
    }
    proof {
        if bound % 2 == 0 && bound != 2 {
            lemma_even_not_prime(bound as nat);
        }
        if has_two_primes(threshold as nat, bound as nat) {
            let (c1, c2) = choose|c1: nat, c2: nat|
                #![trigger is_prime_spec(c1), is_prime_spec(c2)]
                threshold <= c1 < c2 <= bound && is_prime_spec(c1) && is_prime_spec(c2);
            assert(c1 == p);
            assert(c2 == p);
        }
    }
    Err(CryptoError::InvalidRange)
}

/// RSA encryption `m^e mod n`, for a plaintext below the modulus.
pub fn rsa_encrypt(m: u64, key: &RsaPublicKey) -> (r: Result<u64, CryptoError>)
    ensures
        m >= key.n ==> r == Err::<u64, CryptoError>(CryptoError::PlaintextOutOfRange),
        m < key.n ==> r == Ok::<u64, CryptoError>(
            (pow(m as int, key.e as nat) % (key.n as int)) as u64,
        ),
{
    if m >= key.n {
        return Err(CryptoError::PlaintextOutOfRange);
    }
    Ok(efficient_exponentials_mod(m, key.e, key.n))
}

/// RSA decryption `c^d mod n`.
pub fn rsa_decrypt(c: u64, key: &RsaPrivateKey) -> (r: u64)
    requires
        key.n > 0,
    ensures
        r == pow(c as int, key.d as nat) % (key.n as int),
{
    efficient_exponentials_mod(c, key.d, key.n)
}

/// A positive multiple of `a` is at least `a`.
proof fn lemma_multiple_at_least(x: nat, a: nat)
    requires
        a > 0,
        x > 0,
        x % a == 0,
    ensures
        x >= a,
{
    lemma_fundamental_div_mod(x as int, a as int);
    assert(x >= a) by (nonlinear_arith)
        requires
            x == a * (x / a),
            x > 0,
            a > 0,
    ;
}

/// RSA decryption undoes encryption: with a key pair built from distinct
/// primes, `(m^e mod n)^d mod n == m` for every plaintext `m < n`.
pub proof fn lemma_rsa_round_trip(k: RsaKeyPair, p: nat, q: nat, e: nat, m: nat)
    requires
        is_prime_spec(p),
        is_prime_spec(q),
        p != q,
        is_rsa_key_pair(k, p, q, e),
        m < p * q,
    ensures
        pow(pow(m as int, k.public.e as nat) % (k.public.n as int), k.private.d as nat) % (
        k.private.n as int) == m,
{
    let lambda = carmichael_lambda(p, q);
    let n = p * q;
    let d = k.private.d as nat;
    lemma_lcm_multiple((p - 1) as nat, (q - 1) as nat);
    lemma_multiple_at_least(lambda, (p - 1) as nat);
    lemma_multiple_at_least(lambda, (q - 1) as nat);
    assert(lambda >= 2);
    lemma_small_mod(1, lambda);
    if e * d == 0 {
        lemma_small_mod(0, lambda);
    }
    lemma_mod_equivalence((e * d) as int, 1, lambda as int);
    assert(n > 0) by (nonlinear_arith)
        requires
            n == p * q,
            p >= 2,
            q >= 2,
    ;
    lemma_pow_mod_noop(pow(m as int, e), d, n as int);
    lemma_pow_multiplies(m as int, e, d);
    lemma_pow_identity_mod_two_primes(p, q, m, e * d);
}

} // verus!
