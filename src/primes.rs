//! Finding primes: the sieve of Eratosthenes, the Miller-Rabin test, and
//! prime generation by random sampling.
use rand::Rng;
use vstd::arithmetic::div_mod::*;
use vstd::arithmetic::power::*;
use vstd::prelude::*;

use crate::arith::efficient_exponentials_mod;
use crate::error::CryptoError;
use crate::number_theory::{
    is_prime_spec, lemma_mod_transitive, lemma_mr_term_square, lemma_prime_iff_no_small_factor,
    lemma_prime_passes_round, mr_round_passes, mr_term, no_small_factor, odd_part, two_exponent,
};

verus! {

/// No multiple of `j` lies strictly between two consecutive multiples.
proof fn lemma_no_multiple_between(k: int, val: int, j: int)
    requires
        j > 0,
        val % j == 0,
        val < k < val + j,
    ensures
        k % j != 0,
{
    lemma_fundamental_div_mod(val, j);
    lemma_fundamental_div_mod(k, j);
    if k % j == 0 {
        let a = val / j;
        let b = k / j;
        assert(a < b < a + 1) by (nonlinear_arith)
            requires
                val == j * a,
                k == j * b,
                val < k < val + j,
                j > 0,
        ;
    }
}

/// The primes `p` with `threshold < p < n`, in increasing order, found by the
/// sieve of Eratosthenes over `[0, n)`.
pub fn generate_primes_eratosthenes(n: usize, threshold: usize) -> (r: Vec<usize>)
    ensures
        forall|i: int| 0 <= i < r.len() ==> threshold < #[trigger] r[i] < n && is_prime_spec(r[i] as nat),
        forall|i: int, j: int| 0 <= i < j < r.len() ==> r[i] < r[j],
        forall|p: nat| threshold < p < n && is_prime_spec(p) ==> r@.contains(p as usize),
{
    let mut marks: Vec<bool> = Vec::new();
    let mut k: usize = 0;
    while k < n
        invariant
            k <= n,
            marks.len() == k,
            forall|i: int| 0 <= i < k ==> #[trigger] marks[i] == no_small_factor(i as nat, 2),
        decreases n - k,
    {
        marks.push(k >= 2);
        k = k + 1;
    }
    let mut j: usize = 2;
    while j <= n / j
        invariant
            2 <= j,
            marks.len() == n,
            forall|i: int| 0 <= i < n ==> #[trigger] marks[i] == no_small_factor(i as nat, j as nat),
        decreases n - j,
    {
        assert(j * j <= n && j < n) by (nonlinear_arith)
            requires
                j <= n / j,
                j >= 2,
        ;
        if marks[j] {
            let mut val: usize = j * j;
            proof {
                lemma_mod_multiples_basic(j as int, j as int);
            }
            while val < n
                invariant
                    2 <= j < n,
                    j * j <= val <= n,
                    val % j == 0 || val == n,
                    marks.len() == n,
                    forall|i: int|
                        0 <= i < n ==> #[trigger] marks[i] == (no_small_factor(i as nat, j as nat)
                            && !(j * j <= i < val && i % (j as int) == 0)),
                decreases n - val,
            {
                marks.set(val, false);
                proof {
                    assert forall|i: int| 0 <= i < n implies #[trigger] marks[i] == (
                    no_small_factor(i as nat, j as nat) && !(j * j <= i < val + j && i % (j as int)
                        == 0)) by {
                        if val < i < val + j {
                            lemma_no_multiple_between(i, val as int, j as int);
                        }
                    }
                    lemma_mod_add_multiples_vanish(val as int, j as int);
                }
                if val < n - j {
                    val = val + j;
                } else {
                    val = n;
                }
            }
            proof {
                assert forall|i: int| 0 <= i < n implies #[trigger] marks[i] == no_small_factor(
                    i as nat,
                    (j + 1) as nat,
                ) by {
                    let ni = i as nat;
                    if no_small_factor(ni, j as nat) && !(j * j <= i && i % (j as int) == 0) {
                        assert forall|d: nat| 2 <= d < j + 1 && d * d <= ni implies #[trigger] (ni
                            % d) != 0 by {
                            if d < j {
                                assert(no_small_factor(ni, j as nat));
                            }
                        }
                    }
                }
            }
        } else {
            proof {
                assert(!no_small_factor(j as nat, j as nat));
                let d = choose|d: nat| 2 <= d < j && d * d <= j && #[trigger] ((j as nat) % d) == 0;
                assert forall|i: int| 0 <= i < n implies #[trigger] marks[i] == no_small_factor(
                    i as nat,
                    (j + 1) as nat,
                ) by {
                    let ni = i as nat;
                    if j * j <= i && i % (j as int) == 0 {
                        lemma_mod_transitive(ni, j as nat, d);
                        assert(d * d <= ni) by (nonlinear_arith)
                            requires
                                d * d <= j,
                                j * j <= ni,
                                j >= 2,
                        ;
                    }
                    if no_small_factor(ni, j as nat) && !(j * j <= i && i % (j as int) == 0) {
                        assert forall|e: nat| 2 <= e < j + 1 && e * e <= ni implies #[trigger] (ni
                            % e) != 0 by {
                            if e < j {
                                assert(no_small_factor(ni, j as nat));
                            }
                        }
                    }
                }
            }
        }
        j = j + 1;
    }
    proof {
        assert(j * j > n) by (nonlinear_arith)
            requires
                j > n / j,
                j >= 2,
        ;
        assert forall|i: int| 0 <= i < n implies #[trigger] marks[i] == is_prime_spec(i as nat) by {
            let ni = i as nat;
            lemma_prime_iff_no_small_factor(ni);
            if no_small_factor(ni, j as nat) {
                assert forall|d: nat| 2 <= d < ni && d * d <= ni implies #[trigger] (ni % d)
                    != 0 by {
                    assert(d < j) by (nonlinear_arith)
                        requires
                            d * d <= ni,
                            ni < n,
                            j * j > n,
                            j >= 2,
                    ;
                }
            }
            if no_small_factor(ni, ni) {
                assert forall|d: nat| 2 <= d < j && d * d <= ni implies #[trigger] (ni % d)
                    != 0 by {
                    assert(d < ni) by (nonlinear_arith)
                        requires
                            d * d <= ni,
                            d >= 2,
                    ;
                }
            }
        }
    }
    let mut out: Vec<usize> = Vec::new();
    let mut idx: usize = 0;
    while idx < n
        invariant
            idx <= n,
            marks.len() == n,
            forall|i: int| 0 <= i < n ==> #[trigger] marks[i] == is_prime_spec(i as nat),
            forall|i: int| 0 <= i < out.len() ==> threshold < #[trigger] out[i] < idx && is_prime_spec(out[i] as nat),
            forall|a: int, b: int| 0 <= a < b < out.len() ==> out[a] < out[b],
            forall|p: nat| threshold < p < idx && is_prime_spec(p) ==> out@.contains(p as usize),
        decreases n - idx,
    {
        if idx > threshold && marks[idx] {
            let ghost before = out@;
            out.push(idx);
            proof {
                assert(out[out.len() - 1] == idx);
                assert forall|p: nat| threshold < p < idx + 1 && is_prime_spec(p) implies out@.contains(p as usize) by {
                    if p < idx {
                        assert(before.contains(p as usize));
                        let w = choose|w: int| 0 <= w < before.len() && before[w] == p as usize;
                        assert(out@[w] == p as usize);
                    } else {
                        assert(out[out.len() - 1] == p as usize);
                    }
                }
            }
        } else {
            proof {
                assert forall|p: nat| threshold < p < idx + 1 && is_prime_spec(p) implies out@.contains(p as usize) by {
                    if p == idx {
                        assert(marks[idx as int]);
                    }
                }
            }
        }
        idx = idx + 1;
    }
    out
}

/// How many random candidates prime generation draws before it walks the
/// whole range in order.
pub const RANDOM_DRAWS: u64 = 4096;

/// Relies on rand's `thread_rng().gen_range(lo..=hi)`: a value drawn from the
/// closed range `[lo, hi]`, which must not be empty.
#[verifier::external_body]
fn random_in_range(lo: u64, hi: u64) -> (r: u64)
    requires
        lo <= hi,
    ensures
        lo <= r <= hi,
{
    rand::thread_rng().gen_range(lo..=hi)
}

/// Splits `m` into its odd part and the exponent of 2 in it.
fn split_power_of_two(m: u64) -> (r: (u64, u64))
    requires
        m > 0,
    ensures
        r.0 == odd_part(m as nat),
        r.1 == two_exponent(m as nat),
{
    let mut d: u64 = m;
    let mut s: u64 = 0;
    while d % 2 == 0
        invariant
            0 < d <= m,
            s <= m - d,
            odd_part(d as nat) == odd_part(m as nat),
            s + two_exponent(d as nat) == two_exponent(m as nat),
        decreases d,
    {
        d = d / 2;
        s = s + 1;
    }
    (d, s)
}

/// One Miller-Rabin round of `n` with base `a`, given the odd part `d` of
/// `n - 1` and the exponent `s` of 2 in it.
fn miller_rabin_round(n: u64, d: u64, s: u64, a: u64) -> (r: bool)
    requires
        n >= 3,
        n % 2 == 1,
        d == odd_part((n - 1) as nat),
        s == two_exponent((n - 1) as nat),
    ensures
        r == mr_round_passes(n as nat, a as nat),
{
    let mut x: u64 = efficient_exponentials_mod(a, d, n);
    proof {
        lemma_pow0(2);
        assert(mr_term(n as nat, a as nat, 0) == x);
    }
    if x == 1 || x == n - 1 {
        proof {
            assert(((n - 1) as nat) % 2 == 0);
            assert(two_exponent((n - 1) as nat) >= 1);
        }
        return true;
    }
    let mut i: u64 = 1;
    while i < s
        invariant
            n >= 3,
            s == two_exponent((n - 1) as nat),
            1 <= i,
            x < n,
            x == mr_term(n as nat, a as nat, (i - 1) as nat),
            mr_term(n as nat, a as nat, 0) != 1,
            forall|k: nat| k < i ==> #[trigger] mr_term(n as nat, a as nat, k) != n - 1,
        decreases s - i,
    {
        proof {
            lemma_mr_term_square(n as nat, a as nat, (i - 1) as nat);
            lemma_pow_adds(x as int, 1, 1);
            lemma_pow1(x as int);
        }
        x = efficient_exponentials_mod(x, 2, n);
        assert(x == mr_term(n as nat, a as nat, i as nat));
        if x == n - 1 {
            assert(mr_term(n as nat, a as nat, i as nat) == n - 1);
            return true;
        }
        i = i + 1;
    }
    false
}

/// The Miller-Rabin test of `n` with the given bases: 2 and 3 are prime;
/// numbers below 2 and other even numbers are not; an odd `n >= 5` is
/// reported prime when every base passes a round.
pub fn is_prime_with_bases(n: u64, bases: &Vec<u64>) -> (r: bool)
    ensures
        r == (n == 2 || n == 3 || (n >= 5 && n % 2 == 1 && forall|i: int|
            0 <= i < bases.len() ==> mr_round_passes(n as nat, #[trigger] bases[i] as nat))),
{
    if n < 2 {
        return false;
    }
    if n == 2 || n == 3 {
        return true;
    }
    if n % 2 == 0 {
        return false;
    }
    let (d, s) = split_power_of_two(n - 1);
    let mut k: usize = 0;
    while k < bases.len()
        invariant
            n >= 5,
            n % 2 == 1,
            d == odd_part((n - 1) as nat),
            s == two_exponent((n - 1) as nat),
            k <= bases.len(),
            forall|i: int| 0 <= i < k ==> mr_round_passes(n as nat, #[trigger] bases[i] as nat),
        decreases bases.len() - k,
    {
        if !miller_rabin_round(n, d, s, bases[k]) {
            return false;
        }
        k = k + 1;
    }
    true
}

/// `b` is a list of `rounds` bases from `[2, n - 2]` with which the
/// Miller-Rabin test of `n` answers `r`.
pub open spec fn drawn_bases_give(n: u64, rounds: nat, b: Seq<u64>, r: bool) -> bool {
    &&& b.len() == rounds
    &&& forall|i: int| 0 <= i < b.len() ==> 2 <= #[trigger] b[i] <= n - 2
    &&& r == (n % 2 == 1 && forall|i: int|
        0 <= i < b.len() ==> mr_round_passes(n as nat, #[trigger] b[i] as nat))
}

/// What holds of the answer `r` of the Miller-Rabin test of `n` with
/// `rounds` random bases, whichever bases were drawn: below 5 the answer is
/// exact; from 5 on it is the test's answer for some `rounds` bases in
/// `[2, n - 2]`.
pub open spec fn miller_rabin_outcome(n: u64, rounds: nat, r: bool) -> bool {
    if n >= 5 {
        exists|b: Seq<u64>| #[trigger] drawn_bases_give(n, rounds, b, r)
    } else {
        r == (n == 2 || n == 3)
    }
}

/// `c` is a prime candidate of `[threshold, bound]`: in the range, and odd
/// or 2.
pub open spec fn is_candidate(c: nat, threshold: nat, bound: nat) -> bool {
    threshold <= c <= bound && (c % 2 == 1 || c == 2)
}

/// An even number other than 2 is not prime.
pub proof fn lemma_even_not_prime(c: nat)
    requires
        c % 2 == 0,
        c != 2,
    ensures
        !is_prime_spec(c),
{
    if c >= 2 {
        assert(c % 2 == 0);
    }
}

/// The Miller-Rabin test of `n` with `rounds` bases drawn at random from
/// `[2, n - 2]`. A prime is always reported prime; a composite odd number
/// slips through with probability at most `4^-rounds`.
pub fn is_prime(n: u64, rounds: usize) -> (r: bool)
    ensures
        n < 2 ==> !r,
        n == 2 || n == 3 ==> r,
        n > 3 && n % 2 == 0 ==> !r,
        is_prime_spec(n as nat) ==> r,
        miller_rabin_outcome(n, rounds as nat, r),
{
    let mut bases: Vec<u64> = Vec::new();
    if n >= 5 {
        let mut k: usize = 0;
        while k < rounds
            invariant
                n >= 5,
                bases.len() == k,
                k <= rounds,
                forall|i: int| 0 <= i < k ==> 2 <= #[trigger] bases[i] <= n - 2,
            decreases rounds - k,
        {
            bases.push(random_in_range(2, n - 2));
            k = k + 1;
        }
    }
    let r = is_prime_with_bases(n, &bases);
    proof {
        if n >= 5 {
            assert(drawn_bases_give(n, rounds as nat, bases@, r));
        }
        if is_prime_spec(n as nat) && n >= 5 {
            assert(n % 2 == 1) by {
                assert((n as nat) % 2 != 0);
            }
            assert forall|i: int| 0 <= i < bases.len() implies mr_round_passes(
                n as nat,
                #[trigger] bases[i] as nat,
            ) by {
                lemma_prime_passes_round(n as nat, bases[i] as nat);
            }
        }
        if is_prime_spec(n as nat) && n == 4 {
            assert((n as nat) % 2 != 0);
        }
    }
    r
}

/// The candidate for a draw `num`: the draw itself when it is odd or 2, else
/// the odd neighbour that lies in the range.
fn candidate_of(num: u64, threshold: u64, bound: u64) -> (c: u64)
    requires
        threshold < bound,
        threshold <= num <= bound,
    ensures
        is_candidate(c as nat, threshold as nat, bound as nat),
{
    if num % 2 == 1 || num == 2 {
        num
    } else if num < bound {
        num + 1
    } else {
        num - 1
    }
}

/// With a prime `bound` and `threshold = bound - 1` other than 2, the only
/// candidate that the Miller-Rabin test can accept is `bound`.
proof fn lemma_single_candidate(p: u64, threshold: u64, bound: u64, rounds: nat)
    requires
        threshold + 1 == bound,
        threshold != 2,
        is_prime_spec(bound as nat),
        is_candidate(p as nat, threshold as nat, bound as nat),
        miller_rabin_outcome(p, rounds, true),
    ensures
        p == bound,
{
    if p == threshold {
        if bound > 2 {
            assert((bound as nat) % 2 != 0);
        }
        if p >= 5 {
            let b = choose|b: Seq<u64>| #[trigger] drawn_bases_give(p, rounds, b, true);
        }
    }
}

/// A prime from `[threshold, bound]`: random draws, each made a candidate
/// (odd, or 2) by moving an even draw to its odd neighbour in the range, and
/// accepted by the Miller-Rabin test with `rounds` random bases. After
/// `RANDOM_DRAWS` rejected draws the candidates are tried in order, so the
/// result is `InvalidRange` only when the range is empty or holds no prime.
pub fn generate_prime(bound: u64, threshold: u64, rounds: usize) -> (r: Result<u64, CryptoError>)
    ensures
        threshold >= bound ==> r == Err::<u64, CryptoError>(CryptoError::InvalidRange),
        r matches Ok(p) ==> {
            &&& p >= 2
            &&& is_candidate(p as nat, threshold as nat, bound as nat)
            &&& miller_rabin_outcome(p, rounds as nat, true)
        },
        r matches Err(e) ==> e == CryptoError::InvalidRange,
        threshold < bound && (exists|c: nat| threshold <= c <= bound && #[trigger] is_prime_spec(c))
            ==> r is Ok,
        threshold + 1 == bound && threshold != 2 && is_prime_spec(bound as nat) ==> r == Ok::<
            u64,
            CryptoError,
        >(bound),
{
    if threshold >= bound {
        return Err(CryptoError::InvalidRange);
    }
    let mut tries: u64 = 0;
    while tries < RANDOM_DRAWS
        invariant
            threshold < bound,
        decreases RANDOM_DRAWS - tries,
    {
        let num = random_in_range(threshold, bound);
        let candidate = candidate_of(num, threshold, bound);
        if is_prime(candidate, rounds) {
            proof {
                if threshold + 1 == bound && threshold != 2 && is_prime_spec(bound as nat) {
                    lemma_single_candidate(candidate, threshold, bound, rounds as nat);
                }
            }
            return Ok(candidate);
        }
        tries = tries + 1;
    }
    let mut c: u64 = threshold;
    while c < bound
        invariant
            threshold <= c <= bound,
            forall|x: nat| threshold <= x < c ==> !#[trigger] is_prime_spec(x),
        decreases bound - c,
    {
        if (c % 2 == 1 || c == 2) && is_prime(c, rounds) {
            proof {
                if threshold + 1 == bound && threshold != 2 && is_prime_spec(bound as nat) {
                    lemma_single_candidate(c, threshold, bound, rounds as nat);
                }
            }
            return Ok(c);
        }
        proof {
            if c % 2 == 0 && c != 2 {
                lemma_even_not_prime(c as nat);
            }
        }
        c = c + 1;
    }
    if (bound % 2 == 1 || bound == 2) && is_prime(bound, rounds) {
        return Ok(bound);
    }
    proof {
        if bound % 2 == 0 && bound != 2 {
            lemma_even_not_prime(bound as nat);
        }
        assert forall|x: nat| threshold <= x <= bound implies !#[trigger] is_prime_spec(x) by {
            if x < bound {
            }
        }
    }
    Err(CryptoError::InvalidRange)
}

} // verus!
