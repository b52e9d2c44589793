//! Elementary number theory over the integers: greatest common divisors,
//! primality, and the facts that the cryptosystems rest on.
use vstd::arithmetic::div_mod::*;
use vstd::arithmetic::power::*;
use vstd::set_lib::*;
use vstd::prelude::*;

verus! {

/// The greatest common divisor, by Euclid's remainder sequence.
pub open spec fn gcd_spec(a: nat, b: nat) -> nat
    decreases b,
{
    if b == 0 {
        a
    } else {
        gcd_spec(b, a % b)
    }
}

/// The least common multiple: `a * (b / gcd(a, b))`, and 0 when both are 0.
pub open spec fn lcm_spec(a: nat, b: nat) -> nat {
    if a == 0 && b == 0 {
        0
    } else {
        a * (b / gcd_spec(a, b))
    }
}

/// `n` is prime: at least 2, and no number strictly between 1 and `n` divides it.
pub open spec fn is_prime_spec(n: nat) -> bool {
    n >= 2 && forall|d: nat| 2 <= d < n ==> #[trigger] (n % d) != 0
}

/// `k` is at least 2 and no `d` in `[2, j)` with `d * d <= k` divides it.
pub open spec fn no_small_factor(k: nat, j: nat) -> bool {
    k >= 2 && forall|d: nat| 2 <= d < j && d * d <= k ==> #[trigger] (k % d) != 0
}

/// `x` is a multiple of `d` when `d` divides a divisor of `x`.
pub proof fn lemma_mod_transitive(x: nat, y: nat, d: nat)
    requires
        d > 0,
        y > 0,
        y % d == 0,
        x % y == 0,
    ensures
        x % d == 0,
{
    lemma_fundamental_div_mod(x as int, y as int);
    lemma_fundamental_div_mod(y as int, d as int);
    let a = y / d;
    let b = x / y;
    assert(x == (a * b) * d) by (nonlinear_arith)
        requires
            x == y * b,
            y == d * a,
    ;
    lemma_mod_multiples_basic((a * b) as int, d as int);
}

/// A composite number has a divisor no larger than its square root, so
/// primality can be decided by the divisors `d` with `d * d <= n`.
pub proof fn lemma_prime_iff_no_small_factor(n: nat)
    ensures
        is_prime_spec(n) <==> no_small_factor(n, n),
{
    if no_small_factor(n, n) && !is_prime_spec(n) {
        let d = choose|d: nat| 2 <= d < n && #[trigger] (n % d) == 0;
        lemma_fundamental_div_mod(n as int, d as int);
        let e = n / d;
        assert(n == d * e);
        assert(e >= 2) by (nonlinear_arith)
            requires
                n == d * e,
                d < n,
                d >= 2,
        ;
        assert(d * d > n);
        assert(e < d && e * e <= n) by (nonlinear_arith)
            requires
                n == d * e,
                d * d > n,
                e >= 2,
        ;
        lemma_mod_multiples_basic(d as int, e as int);
        assert(n % e == 0);
        assert(e < n);
    }
}

/// `k!`.
pub open spec fn factorial(k: nat) -> nat
    decreases k,
{
    if k == 0 {
        1
    } else {
        k * factorial((k - 1) as nat)
    }
}

/// The product of the elements of `s`.
pub open spec fn seq_product(s: Seq<int>) -> int
    decreases s.len(),
{
    if s.len() == 0 {
        1
    } else {
        seq_product(s.drop_last()) * s.last()
    }
}

/// Euclid's lemma for a factor below the prime, by descent on that factor.
proof fn lemma_euclid_small(p: nat, x: nat, y: nat)
    requires
        is_prime_spec(p),
        0 < x < p,
        (x * y) % p == 0,
    ensures
        y % p == 0,
    decreases x,
{
    if x > 1 {
        assert(p % x != 0);
        let q = p / x;
        let r = p % x;
        let k = ((x * y) / p) as int;
        lemma_fundamental_div_mod(p as int, x as int);
        lemma_fundamental_div_mod((x * y) as int, p as int);
        assert(r * y == (y - q * k) * p) by (nonlinear_arith)
            requires
                p == x * q + r,
                x * y == p * k,
        ;
        lemma_mod_multiples_basic(y - q * k, p as int);
        lemma_euclid_small(p, r, y);
    } else {
        assert(x * y == y) by (nonlinear_arith)
            requires
                x == 1,
        ;
    }
}

/// Euclid's lemma: a prime that divides a product divides one of its factors.
pub proof fn lemma_euclid(p: nat, x: nat, y: nat)
    requires
        is_prime_spec(p),
        (x * y) % p == 0,
    ensures
        x % p == 0 || y % p == 0,
{
    if x % p != 0 {
        lemma_mul_mod_noop_left(x as int, y as int, p as int);
        lemma_euclid_small(p, x % p, y);
    }
}

/// Taking one element out of a sequence divides it out of the product.
proof fn lemma_product_remove(s: Seq<int>, j: int)
    requires
        0 <= j < s.len(),
    ensures
        seq_product(s) == s[j] * seq_product(s.remove(j)),
    decreases s.len(),
{
    if j == s.len() - 1 {
        assert(s.remove(j) =~= s.drop_last());
        assert(seq_product(s) == seq_product(s.drop_last()) * s[j]);
        assert(seq_product(s.drop_last()) * s[j] == s[j] * seq_product(s.drop_last())) by (nonlinear_arith);
    } else {
        let dl = s.drop_last();
        lemma_product_remove(dl, j);
        assert(s.remove(j).drop_last() =~= dl.remove(j));
        assert(s.remove(j).last() == s.last());
        let a = seq_product(dl.remove(j));
        assert(dl[j] == s[j]);
        assert(seq_product(s) == seq_product(dl) * s.last());
        assert(seq_product(s) == (s[j] * a) * s.last());
        assert(seq_product(s.remove(j)) == a * s.last());
        assert((s[j] * a) * s.last() == s[j] * (a * s.last())) by (nonlinear_arith);
    }
}

/// A sequence of `k` distinct numbers in `[1, k]` multiplies to `k!`.
proof fn lemma_product_of_permutation(s: Seq<int>, k: nat)
    requires
        s.len() == k,
        s.no_duplicates(),
        forall|i: int| 0 <= i < s.len() ==> 1 <= #[trigger] s[i] <= k,
    ensures
        seq_product(s) == factorial(k),
    decreases k,
{
    if k > 0 {
        if !s.contains(k as int) {
            s.unique_seq_to_set();
            assert(s.to_set().subset_of(set_int_range(1, k as int)));
            lemma_int_range(1, k as int);
            lemma_len_subset(s.to_set(), set_int_range(1, k as int));
        }
        let j = choose|j: int| 0 <= j < s.len() && s[j] == k as int;
        let s2 = s.remove(j);
        lemma_product_remove(s, j);
        s.remove_ensures(j);
        assert forall|i: int| 0 <= i < s2.len() implies 1 <= #[trigger] s2[i] <= k - 1 by {
            if i < j {
                assert(s2[i] == s[i]);
            } else {
                assert(s2[i] == s[i + 1]);
            }
        }
        assert forall|a: int, b: int| 0 <= a < s2.len() && 0 <= b < s2.len() && a != b implies s2[a]
            != s2[b] by {
            let ia = if a < j { a } else { a + 1 };
            let ib = if b < j { b } else { b + 1 };
            assert(s2[a] == s[ia]);
            assert(s2[b] == s[ib]);
        }
        lemma_product_of_permutation(s2, (k - 1) as nat);
    }
}

/// The residues of `a * 1, a * 2, ..., a * k` modulo `p`.
pub open spec fn residues(a: int, p: int, k: nat) -> Seq<int> {
    Seq::new(k, |i: int| (a * (i + 1)) % p)
}

/// The residues of `a * i` multiply to `a^k * k!` modulo `p`.
proof fn lemma_residue_product(a: int, p: int, k: nat)
    requires
        p > 0,
    ensures
        seq_product(residues(a, p, k)) % p == (pow(a, k) * factorial(k)) % p,
    decreases k,
{
    if k == 0 {
        lemma_pow0(a);
    } else {
        let s = residues(a, p, k);
        let km1 = (k - 1) as nat;
        assert(s.drop_last() =~= residues(a, p, km1));
        lemma_residue_product(a, p, km1);
        let pd = seq_product(s.drop_last());
        let big_a = pow(a, km1) * factorial(km1);
        let rr = (a * k) % p;
        assert(seq_product(s) == pd * rr);
        lemma_mul_mod_noop(pd, rr, p);
        lemma_mod_twice(a * k, p);
        lemma_mul_mod_noop(big_a, a * k, p);
        lemma_pow_adds(a, km1, 1);
        lemma_pow1(a);
        assert(big_a * (a * k) == pow(a, k) * factorial(k)) by (nonlinear_arith)
            requires
                big_a == pow(a, km1) * factorial(km1),
                pow(a, k) == pow(a, km1) * a,
                factorial(k) == k * factorial(km1),
        ;
    }
}

/// No factorial below a prime is a multiple of it.
proof fn lemma_factorial_not_multiple(p: nat, k: nat)
    requires
        is_prime_spec(p),
        k < p,
    ensures
        factorial(k) % p != 0,
    decreases k,
{
    if k == 0 {
        lemma_small_mod(1, p);
    } else {
        lemma_factorial_not_multiple(p, (k - 1) as nat);
        lemma_small_mod(k, p);
        if factorial(k) % p == 0 {
            lemma_euclid(p, k, factorial((k - 1) as nat));
        }
    }
}

/// Fermat's little theorem: `a^(p-1) == 1 (mod p)` for a prime `p` that does
/// not divide `a`.
pub proof fn lemma_fermat(a: nat, p: nat)
    requires
        is_prime_spec(p),
        a % p != 0,
    ensures
        pow(a as int, (p - 1) as nat) % (p as int) == 1,
{
    let k = (p - 1) as nat;
    let s = residues(a as int, p as int, k);
    assert forall|i: int| 0 <= i < s.len() implies 1 <= #[trigger] s[i] <= k by {
        let m = (i + 1) as nat;
        lemma_small_mod(m, p);
        if s[i] == 0 {
            lemma_euclid(p, a, m);
        }
    }
    assert forall|i: int, j: int| 0 <= i < s.len() && 0 <= j < s.len() && i != j implies s[i]
        != s[j] by {
        if s[i] == s[j] {
            let (lo, hi) = if i < j { (i, j) } else { (j, i) };
            lemma_mod_equivalence(a * (hi + 1), a * (lo + 1), p as int);
            assert(a * (hi + 1) - a * (lo + 1) == a * (hi - lo)) by (nonlinear_arith);
            lemma_small_mod((hi - lo) as nat, p);
            lemma_euclid(p, a, (hi - lo) as nat);
        }
    }
    lemma_product_of_permutation(s, k);
    lemma_residue_product(a as int, p as int, k);
    let f = factorial(k) as int;
    let w = pow(a as int, k);
    if a == 0 {
        lemma_small_mod(0, p);
    }
    lemma_pow_positive(a as int, k);
    lemma_mod_equivalence(w * f, f, p as int);
    assert(w * f - f == (w - 1) * f) by (nonlinear_arith);
    lemma_factorial_not_multiple(p, k);
    lemma_euclid(p, (w - 1) as nat, f as nat);
    lemma_mod_equivalence(w, 1, p as int);
    lemma_small_mod(1, p);
}

/// `m` with every factor 2 divided out.
pub open spec fn odd_part(m: nat) -> nat
    decreases m,
{
    if m > 0 && m % 2 == 0 {
        odd_part(m / 2)
    } else {
        m
    }
}

/// How many times 2 divides `m` (for `m > 0`).
pub open spec fn two_exponent(m: nat) -> nat
    decreases m,
{
    if m > 0 && m % 2 == 0 {
        1 + two_exponent(m / 2)
    } else {
        0
    }
}

/// `m == odd_part(m) * 2^two_exponent(m)`.
pub proof fn lemma_odd_part(m: nat)
    requires
        m > 0,
    ensures
        odd_part(m) * pow(2, two_exponent(m)) == m,
        odd_part(m) % 2 == 1,
    decreases m,
{
    if m % 2 == 0 {
        let h = m / 2;
        lemma_odd_part(h);
        let t = two_exponent(h);
        lemma_pow_adds(2, t, 1);
        lemma_pow1(2);
        assert(odd_part(m) * pow(2, two_exponent(m)) == (odd_part(h) * pow(2, t)) * 2) by (
        nonlinear_arith)
            requires
                odd_part(m) == odd_part(h),
                two_exponent(m) == t + 1,
                pow(2, t + 1) == pow(2, t) * 2,
        ;
    } else {
        lemma_pow0(2);
    }
}

/// The `i`-th term `a^(d * 2^i) mod n` of the Miller-Rabin sequence of `n`
/// with base `a`, where `d` is the odd part of `n - 1`.
pub open spec fn mr_term(n: nat, a: nat, i: nat) -> int {
    pow(a as int, (odd_part((n - 1) as nat) * pow(2, i)) as nat) % (n as int)
}

/// A Miller-Rabin round with base `a` finds no evidence that `n` is
/// composite: `a^d == 1 (mod n)`, or `a^(d * 2^i) == -1 (mod n)` for some
/// `i` below the exponent of 2 in `n - 1`.
pub open spec fn mr_round_passes(n: nat, a: nat) -> bool {
    mr_term(n, a, 0) == 1 || exists|i: nat|
        i < two_exponent((n - 1) as nat) && #[trigger] mr_term(n, a, i) == n - 1
}

/// Each term of the Miller-Rabin sequence is the square of the previous one.
pub proof fn lemma_mr_term_square(n: nat, a: nat, i: nat)
    requires
        n > 0,
    ensures
        mr_term(n, a, i + 1) == (mr_term(n, a, i) * mr_term(n, a, i)) % (n as int),
{
    let d = odd_part((n - 1) as nat);
    lemma_pow_adds(2, i, 1);
    lemma_pow1(2);
    lemma_pow_positive(2, i);
    let e = d * pow(2, i);
    assert(d * pow(2, i + 1) == e * 2) by (nonlinear_arith)
        requires
            pow(2, i + 1) == pow(2, i) * 2,
            e == d * pow(2, i),
    ;
    assert(e >= 0) by (nonlinear_arith)
        requires
            e == d * pow(2, i),
            d >= 0,
            pow(2, i) > 0,
    ;
    lemma_pow_multiplies(a as int, e as nat, 2);
    lemma_square_is_pow2(pow(a as int, e as nat));
    lemma_mul_mod_noop(pow(a as int, e as nat), pow(a as int, e as nat), n as int);
}

/// Modulo a prime, the only square roots of 1 are 1 and -1.
pub proof fn lemma_square_root_of_one(p: nat, y: nat)
    requires
        is_prime_spec(p),
        y < p,
        (y * y) % p == 1,
    ensures
        y == 1 || y == p - 1,
{
    if y == 0 {
        lemma_small_mod(0, p);
    } else {
        lemma_small_mod(1, p);
        lemma_mod_equivalence((y * y) as int, 1, p as int);
        assert((y - 1) * (y + 1) == y * y - 1) by (nonlinear_arith);
        lemma_euclid(p, (y - 1) as nat, y + 1);
        if (y - 1) % (p as int) == 0 {
            lemma_small_mod((y - 1) as nat, p);
        } else if y + 1 < p {
            lemma_small_mod(y + 1, p);
        }
    }
}

/// Going back from a term equal to 1, the sequence either starts at 1 or
/// passes through -1.
proof fn lemma_mr_chain(n: nat, a: nat, k: nat)
    requires
        is_prime_spec(n),
        mr_term(n, a, k) == 1,
    ensures
        mr_term(n, a, 0) == 1 || exists|i: nat| i < k && #[trigger] mr_term(n, a, i) == n - 1,
    decreases k,
{
    if k > 0 {
        let km1 = (k - 1) as nat;
        let y = mr_term(n, a, km1);
        lemma_mr_term_square(n, a, km1);
        lemma_square_root_of_one(n, y as nat);
        if y == 1 {
            lemma_mr_chain(n, a, km1);
            if mr_term(n, a, 0) != 1 {
                let i = choose|i: nat| i < km1 && #[trigger] mr_term(n, a, i) == n - 1;
                assert(mr_term(n, a, i) == n - 1);
            }
        } else {
            assert(mr_term(n, a, km1) == n - 1);
        }
    }
}

/// Soundness of the Miller-Rabin round: a prime passes it for every base in
/// `[1, n)`, so a failed round proves a number composite.
pub proof fn lemma_prime_passes_round(n: nat, a: nat)
    requires
        is_prime_spec(n),
        1 <= a < n,
    ensures
        mr_round_passes(n, a),
{
    let m = (n - 1) as nat;
    lemma_odd_part(m);
    lemma_small_mod(a, n);
    lemma_fermat(a, n);
    assert(mr_term(n, a, two_exponent(m)) == 1);
    lemma_mr_chain(n, a, two_exponent(m));
}

/// The gcd is positive and divides both numbers.
pub proof fn lemma_gcd_divides(a: nat, b: nat)
    requires
        a > 0 || b > 0,
    ensures
        gcd_spec(a, b) > 0,
        a % gcd_spec(a, b) == 0,
        b % gcd_spec(a, b) == 0,
    decreases b,
{
    if b == 0 {
        lemma_mod_self_0(a as int);
        lemma_small_mod(0, a);
    } else {
        lemma_gcd_divides(b, a % b);
        let g = gcd_spec(a, b);
        lemma_fundamental_div_mod(a as int, b as int);
        lemma_fundamental_div_mod(b as int, g as int);
        lemma_fundamental_div_mod((a % b) as int, g as int);
        let x = b / g;
        let y = (a % b) / g;
        assert(a == (x * (a / b) + y) * g) by (nonlinear_arith)
            requires
                a == b * (a / b) + a % b,
                b == g * x,
                a % b == g * y,
        ;
        lemma_mod_multiples_basic((x * (a / b) + y) as int, g as int);
    }
}

/// The lcm of two positive numbers is a positive common multiple of both,
/// no larger than their product.
pub proof fn lemma_lcm_multiple(a: nat, b: nat)
    requires
        a > 0,
        b > 0,
    ensures
        lcm_spec(a, b) > 0,
        lcm_spec(a, b) % a == 0,
        lcm_spec(a, b) % b == 0,
        lcm_spec(a, b) <= a * b,
{
    lemma_gcd_divides(a, b);
    let g = gcd_spec(a, b);
    lemma_fundamental_div_mod(a as int, g as int);
    lemma_fundamental_div_mod(b as int, g as int);
    let x = a / g;
    let y = b / g;
    assert(a == g * x && b == g * y);
    assert(y > 0 && x * g == a && y * g == b) by (nonlinear_arith)
        requires
            a == g * x,
            b == g * y,
            b > 0,
            g > 0,
    ;
    assert(lcm_spec(a, b) == a * y);
    assert(a * y == b * x && a * y > 0 && a * y <= a * b) by (nonlinear_arith)
        requires
            x * g == a,
            y * g == b,
            y > 0,
            g > 0,
            a > 0,
    ;
    lemma_mod_multiples_basic(y as int, a as int);
    lemma_mod_multiples_basic(x as int, b as int);
    assert(a * y == y * a) by (nonlinear_arith);
    assert(b * x == x * b) by (nonlinear_arith);
}

/// `(1 + t*n)^k == 1 + k*t*n (mod n^2)`: the binomial terms past the first
/// two are multiples of `n^2`.
pub proof fn lemma_binomial_mod_square(n: int, t: int, k: nat)
    requires
        n > 0,
    ensures
        pow(1 + t * n, k) % (n * n) == (1 + k * t * n) % (n * n),
    decreases k,
{
    let nn = n * n;
    assert(nn > 0) by (nonlinear_arith)
        requires
            n > 0,
            nn == n * n,
    ;
    if k == 0 {
        lemma_pow0(1 + t * n);
        assert(k * t * n == 0) by (nonlinear_arith)
            requires
                k == 0,
        ;
    } else {
        let km1 = (k - 1) as nat;
        lemma_binomial_mod_square(n, t, km1);
        lemma_pow_adds(1 + t * n, km1, 1);
        lemma_pow1(1 + t * n);
        let x = pow(1 + t * n, km1);
        let y = 1 + km1 * t * n;
        lemma_mul_mod_noop_left(x, 1 + t * n, nn);
        lemma_mul_mod_noop_left(y, 1 + t * n, nn);
        assert(pow(1 + t * n, k) == x * (1 + t * n));
        assert(y * (1 + t * n) == nn * (km1 * t * t) + (1 + k * t * n)) by (nonlinear_arith)
            requires
                y == 1 + km1 * t * n,
                k == km1 + 1,
                nn == n * n,
        ;
        lemma_mod_multiples_vanish(km1 * t * t, 1 + k * t * n, nn);
    }
}

/// `m^x == m (mod p)` for a prime `p` when `x - 1` is a multiple of `p - 1`,
/// whether or not `p` divides `m`.
pub proof fn lemma_pow_fermat_exponent(m: nat, p: nat, x: nat)
    requires
        is_prime_spec(p),
        x >= 1,
        ((x - 1) as nat) % ((p - 1) as nat) == 0,
    ensures
        pow(m as int, x) % (p as int) == (m as int) % (p as int),
{
    let pm1 = (p - 1) as nat;
    let j = ((x - 1) as nat) / pm1;
    lemma_fundamental_div_mod((x - 1) as int, pm1 as int);
    assert(x == 1 + pm1 * j);
    lemma_pow_adds(m as int, 1, (pm1 * j) as nat);
    lemma_pow1(m as int);
    lemma_pow_multiplies(m as int, pm1, j);
    let big = pow(pow(m as int, pm1), j);
    assert(pow(m as int, x) == m * big);
    if m % p == 0 {
        lemma_mul_mod_noop_left(m as int, big, p as int);
        assert(0 * big == 0);
        lemma_small_mod(0, p);
        assert((m * big) % (p as int) == 0);
    } else {
        lemma_fermat(m, p);
        lemma_pow_mod_noop(pow(m as int, pm1), j, p as int);
        lemma1_pow(j);
        lemma_small_mod(1, p);
        assert(big % (p as int) == 1);
        lemma_mul_mod_noop_right(m as int, big, p as int);
        assert(m * 1 == m);
        assert((m * big) % (p as int) == (m as int) % (p as int));
    }
}

/// Two numbers below `p * q` that agree modulo the distinct primes `p` and
/// `q` are equal.
pub proof fn lemma_agree_mod_two_primes(p: nat, q: nat, a: nat, b: nat)
    requires
        is_prime_spec(p),
        is_prime_spec(q),
        p != q,
        a < p * q,
        b < p * q,
        a % p == b % p,
        a % q == b % q,
    ensures
        a == b,
{
    let hi = if a >= b { a } else { b };
    let lo = if a >= b { b } else { a };
    let diff = (hi - lo) as nat;
    lemma_mod_equivalence(hi as int, lo as int, p as int);
    lemma_mod_equivalence(hi as int, lo as int, q as int);
    lemma_fundamental_div_mod(diff as int, p as int);
    let t = diff / p;
    assert(diff == p * t);
    if p % q == 0 {
        if q < p {
            assert(p % q != 0);
        } else {
            lemma_small_mod(p, q);
        }
    }
    lemma_euclid(q, p, t);
    lemma_fundamental_div_mod(t as int, q as int);
    let u = t / q;
    assert(diff == (p * q) * u) by (nonlinear_arith)
        requires
            diff == p * t,
            t == q * u,
    ;
    assert(u == 0 && diff == 0) by (nonlinear_arith)
        requires
            diff == (p * q) * u,
            diff < p * q,
            u >= 0,
    ;
    assert(hi == lo);
}

/// Raising to `x` is the identity modulo the product of distinct primes `p`
/// and `q` when `x - 1` is a multiple of `lcm(p - 1, q - 1)`.
pub proof fn lemma_pow_identity_mod_two_primes(p: nat, q: nat, m: nat, x: nat)
    requires
        is_prime_spec(p),
        is_prime_spec(q),
        p != q,
        m < p * q,
        x >= 1,
        ((x - 1) as nat) % lcm_spec((p - 1) as nat, (q - 1) as nat) == 0,
    ensures
        pow(m as int, x) % ((p * q) as int) == m,
{
    let lambda = lcm_spec((p - 1) as nat, (q - 1) as nat);
    let n = p * q;
    lemma_lcm_multiple((p - 1) as nat, (q - 1) as nat);
    lemma_mod_transitive((x - 1) as nat, lambda, (p - 1) as nat);
    lemma_mod_transitive((x - 1) as nat, lambda, (q - 1) as nat);
    lemma_pow_fermat_exponent(m, p, x);
    lemma_pow_fermat_exponent(m, q, x);
    assert(n > 0) by (nonlinear_arith)
        requires
            n == p * q,
            p >= 2,
            q >= 2,
    ;
    let y = pow(m as int, x) % (n as int);
    lemma_mod_mod(pow(m as int, x), p as int, q as int);
    assert(q * p == n) by (nonlinear_arith)
        requires
            n == p * q,
    ;
    lemma_mod_mod(pow(m as int, x), q as int, p as int);
    lemma_agree_mod_two_primes(p, q, y as nat, m);
}

} // verus!
