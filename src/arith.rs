//! Modular arithmetic on machine words: exponentiation, gcd, lcm and inverse.
use vstd::arithmetic::div_mod::*;
use vstd::arithmetic::power::*;
use vstd::prelude::*;

use crate::error::CryptoError;
use crate::number_theory::{gcd_spec, lcm_spec, lemma_gcd_divides};

verus! {

/// `(res * b^e) mod m` is unchanged by one square-and-multiply step.
proof fn lemma_square_step(res: int, b: int, e: nat, m: int)
    requires
        m > 0,
    ensures
        (res * pow(b, e)) % m == ((if e % 2 == 1 { (res * b) % m } else { res }) * pow(
            (b * b) % m,
            e / 2,
        )) % m,
{
    let h = (e / 2) as nat;
    let t: int = if e % 2 == 1 { b } else { 1 };
    lemma_pow_multiplies(b, 2, h);
    lemma_square_is_pow2(b);
    lemma_pow_adds(b, 2 * h, (e % 2) as nat);
    lemma_pow1(b);
    lemma_pow0(b);
    assert(pow(b, e) == pow(b * b, h) * t);
    lemma_pow_mod_noop(b * b, h, m);
    let q = pow(b * b, h);
    let q2 = pow((b * b) % m, h);
    let rt = res * t;
    let x: int = if e % 2 == 1 { rt % m } else { res };
    assert(res * (q * t) == rt * q) by (nonlinear_arith)
        requires
            rt == res * t,
    ;
    lemma_mul_mod_noop(rt, q, m);
    lemma_mul_mod_noop(x, q2, m);
    if e % 2 == 1 {
        lemma_mod_twice(rt, m);
    }
    assert(x % m == rt % m);
}

/// `base^exponent mod modulus`, by right-to-left binary exponentiation.
/// Products are formed in 128 bits before they are reduced.
pub fn efficient_exponentials_mod(base: u64, exponent: u64, modulus: u64) -> (r: u64)
    requires
        modulus > 0,
    ensures
        r == pow(base as int, exponent as nat) % (modulus as int),
{
    let m = modulus as u128;
    let mut b: u128 = (base as u128) % m;
    let mut e: u64 = exponent;
    let mut res: u128 = 1u128 % m;
    proof {
        lemma_pow_mod_noop(base as int, exponent as nat, m as int);
        lemma_pow0(b as int);
        lemma_mod_twice(pow(b as int, exponent as nat), m as int);
        lemma_mul_mod_noop_general(1, pow(b as int, exponent as nat), m as int);
    }
    while e > 0
        invariant
            m == modulus,
            m > 0,
            b < m,
            res < m,
            (res * pow(b as int, e as nat)) % (m as int) == pow(base as int, exponent as nat) % (
            m as int),
        decreases e,
    {
        proof {
            lemma_square_step(res as int, b as int, e as nat, m as int);
        }
        if e % 2 == 1 {
            assert(res * b <= u128::MAX) by (nonlinear_arith)
                requires
                    res < m,
                    b < m,
                    m <= 0xffff_ffff_ffff_ffffu128,
            ;
            res = (res * b) % m;
        }
        assert(b * b <= u128::MAX) by (nonlinear_arith)
            requires
                b < m,
                m <= 0xffff_ffff_ffff_ffffu128,
        ;
        b = (b * b) % m;
        e = e / 2;
    }
    proof {
        lemma_pow0(b as int);
        lemma_small_mod(res as nat, m as nat);
    }
    res as u64
}

/// One step of the extended Euclidean algorithm keeps `t * a == r (mod m)`,
/// with the new coefficient reduced into `[0, m)`.
proof fn lemma_euclid_step(t: int, s: int, a: int, r: int, sr: int, q: int, m: int, nt: int)
    requires
        m > 0,
        (t * a) % m == r % m,
        (s * a) % m == sr % m,
        nt == (t + m - (q * s) % m) % m,
    ensures
        (nt * a) % m == (r - q * sr) % m,
{
    let c1 = (t * a) / m - r / m;
    let c2 = (s * a) / m - sr / m;
    lemma_fundamental_div_mod(t * a, m);
    lemma_fundamental_div_mod(r, m);
    lemma_fundamental_div_mod(s * a, m);
    lemma_fundamental_div_mod(sr, m);
    assert(t * a - r == m * c1) by (nonlinear_arith)
        requires
            c1 == (t * a) / m - r / m,
            t * a == m * ((t * a) / m) + (t * a) % m,
            r == m * (r / m) + r % m,
            (t * a) % m == r % m,
    ;
    assert(s * a - sr == m * c2) by (nonlinear_arith)
        requires
            c2 == (s * a) / m - sr / m,
            s * a == m * ((s * a) / m) + (s * a) % m,
            sr == m * (sr / m) + sr % m,
            (s * a) % m == sr % m,
    ;
    let u = t + m - (q * s) % m;
    let k = u / m;
    let w = (q * s) / m;
    lemma_fundamental_div_mod(u, m);
    lemma_fundamental_div_mod(q * s, m);
    assert(nt == t + m - q * s + m * w - m * k);
    assert(nt * a == t * a + m * a - q * (s * a) + m * (w * a) - m * (k * a)) by (nonlinear_arith)
        requires
            nt == t + m - q * s + m * w - m * k,
    ;
    assert(q * (s * a) == q * sr + m * (q * c2)) by (nonlinear_arith)
        requires
            s * a - sr == m * c2,
    ;
    let big_k = c1 + a - q * c2 + w * a - k * a;
    assert(m * big_k == m * c1 + m * a - m * (q * c2) + m * (w * a) - m * (k * a)) by (nonlinear_arith)
        requires
            big_k == c1 + a - q * c2 + w * a - k * a,
    ;
    assert(nt * a == (r - q * sr) + m * big_k);
    lemma_mod_multiples_vanish(big_k, r - q * sr, m);
}

/// The inverse of `a` modulo `n`, by the extended Euclidean algorithm: the
/// `x` in `[0, n)` with `a * x == 1 (mod n)`. It exists exactly when `a` and
/// `n` are coprime; otherwise the result is `NotInvertible`.
pub fn modular_inverse(a: u64, n: u64) -> (r: Result<u64, CryptoError>)
    requires
        n > 0,
    ensures
        r is Ok <==> gcd_spec(a as nat, n as nat) == 1,
        r matches Ok(x) ==> x < n && (a * x) % (n as int) == 1int % (n as int),
        r matches Err(e) ==> e == CryptoError::NotInvertible,
{
    let m = n as u128;
    let mut r: u64 = n;
    let mut new_r: u64 = a % n;
    let mut t: u128 = 0;
    let mut new_t: u128 = 1u128 % m;
    proof {
        lemma_mul_mod_noop(1, a as int, m as int);
        lemma_mod_twice(a as int, m as int);
        lemma_mod_self_0(m as int);
        assert(t * a == 0);
        if m == 1 {
            lemma_mod_self_0(1);
            assert(new_t == 0);
            assert(new_t * a == 0);
        } else {
            lemma_small_mod(1, m as nat);
            assert(new_t == 1);
        }
    }
    while new_r != 0
        invariant
            m == n,
            n > 0,
            t < m,
            new_t < m,
            gcd_spec(r as nat, new_r as nat) == gcd_spec(a as nat, n as nat),
            (t * a) % (m as int) == (r as int) % (m as int),
            (new_t * a) % (m as int) == (new_r as int) % (m as int),
        decreases new_r,
    {
        let quotient: u64 = r / new_r;
        assert((quotient as u128) * new_t <= u128::MAX) by (nonlinear_arith)
            requires
                new_t < m,
                m <= 0xffff_ffff_ffff_ffffu128,
                quotient <= 0xffff_ffff_ffff_ffffu64,
        ;
        let next_t: u128 = (t + m - ((quotient as u128) * new_t) % m) % m;
        let next_r: u64 = r % new_r;
        proof {
            lemma_euclid_step(
                t as int,
                new_t as int,
                a as int,
                r as int,
                new_r as int,
                quotient as int,
                m as int,
                next_t as int,
            );
            lemma_fundamental_div_mod(r as int, new_r as int);
        }
        t = new_t;
        new_t = next_t;
        r = new_r;
        new_r = next_r;
    }
    if r != 1 {
        return Err(CryptoError::NotInvertible);
    }
    proof {
        assert((a * t) == (t * a)) by (nonlinear_arith);
    }
    Ok(t as u64)
}

/// A number has an inverse modulo `n` only when it is coprime to `n`: so
/// `NotInvertible` from `modular_inverse` means that no inverse exists.
pub proof fn lemma_inverse_needs_coprime(a: nat, n: nat, x: nat)
    requires
        n > 0,
        ((a * x) as int) % (n as int) == 1int % (n as int),
    ensures
        gcd_spec(a, n) == 1,
{
    lemma_gcd_divides(a, n);
    let g = gcd_spec(a, n);
    if n == 1 {
        assert(gcd_spec(1, a % 1) == gcd_spec(1, 0));
    } else {
        lemma_small_mod(1, n);
        lemma_fundamental_div_mod((a * x) as int, n as int);
        lemma_fundamental_div_mod(a as int, g as int);
        lemma_fundamental_div_mod(n as int, g as int);
        let k = ((a * x) as int) / (n as int);
        let c = (a / g) * x - (n / g) * k;
        assert(g * c == 1) by (nonlinear_arith)
            requires
                a * x == n * k + 1,
                a == g * (a / g),
                n == g * (n / g),
                c == (a / g) * x - (n / g) * k,
        ;
        assert(g == 1) by (nonlinear_arith)
            requires
                g * c == 1,
                g > 0,
        ;
    }
}

/// Relies on num::integer::lcm on `u64`: `a * (b / gcd(a, b))`, and 0 when
/// both are 0. The product must fit, as num multiplies without a check.
#[verifier::external_body]
pub(crate) fn lcm(a: u64, b: u64) -> (r: u64)
    requires
        a * b <= u64::MAX,
    ensures
        r == lcm_spec(a as nat, b as nat),
{
    num::integer::lcm(a, b)
}

} // verus!
