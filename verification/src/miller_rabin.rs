//! The Miller-Rabin primality test.
//!
//! For an odd number `n` write `n - 1` as `d * 2^r` with `d` odd. A base `a`
//! speaks for `n` when `a^d` is 1 modulo `n`, or one of `a^d`, `a^(2d)`, ...,
//! `a^(2^(r-1) d)` is `-1` modulo `n`.
//!
//! Every base between 2 and `n - 2` speaks for a prime: this is proved here,
//! so the test never takes a prime for a composite. That few bases speak
//! for a composite, on which the small chance of the opposite error rests,
//! is a theorem of Rabin's and is not proved here: the contracts say what
//! holds whichever bases are drawn.

use crate::divisibility::{composite, divides, prime};
use crate::fermat::{lemma_fermat_little, lemma_square_root_of_one};
use crate::modular::pow_mod;
use crate::random::draw_in_range;
use crate::wide::lemma_two_pow_128;
use vstd::arithmetic::div_mod::*;
use vstd::arithmetic::mul::*;
use vstd::arithmetic::power::*;
use vstd::prelude::*;

verus! {

/// What the Miller-Rabin test says of a number.
#[derive(PartialEq, Eq, Debug, Structural)]
pub enum MillerRabinResult {
    /// Some base has shown the number to be composite.
    Composite,
    /// No base that was tried has shown the number to be composite.
    ProbablyPrime,
}

/// The number of rounds that `is_prime` runs.
pub const ROUNDS: usize = 100;

/// The exponent of the largest power of 2 that divides `m`; 0 for `m == 0`.
pub open spec fn two_exponent(m: nat) -> nat
    decreases m,
{
    if m == 0 || m % 2 == 1 {
        0
    } else {
        1 + two_exponent(m / 2)
    }
}

/// What is left of `m` when every factor 2 is taken out; 0 for `m == 0`.
pub open spec fn odd_part(m: nat) -> nat
    decreases m,
{
    if m == 0 || m % 2 == 1 {
        m
    } else {
        odd_part(m / 2)
    }
}

/// `a^(d * 2^j)` modulo `n`, where `d` is the odd part of `n - 1`: the
/// `j`-th number of the chain of squares that a round walks along.
pub open spec fn chain(n: nat, a: nat, j: nat) -> nat {
    (pow(a as int, odd_part((n - 1) as nat) * pow(2, j) as nat) % (n as int)) as nat
}

/// The base `a` speaks for `n`: the chain of squares starts at 1, or holds
/// `n - 1` at its start or at one of the places 1 to `r - 1`, where `r` is
/// the exponent of 2 in `n - 1`.
pub open spec fn strong_probable_prime(n: nat, a: nat) -> bool {
    ||| chain(n, a, 0) == 1
    ||| chain(n, a, 0) == n - 1
    ||| exists|j: nat| 1 <= j < two_exponent((n - 1) as nat) && #[trigger] chain(n, a, j) == n - 1
}

/// Some base between 2 and `n - 2` speaks for `n`.
pub open spec fn has_supporting_base(n: nat) -> bool {
    exists|a: nat| 2 <= a <= n - 2 && #[trigger] strong_probable_prime(n, a)
}

/// Some base between 2 and `n - 2` shows `n` to be composite.
pub open spec fn has_refuting_base(n: nat) -> bool {
    exists|a: nat| 2 <= a <= n - 2 && !#[trigger] strong_probable_prime(n, a)
}

/// `n` is 2 or 3, or some base between 2 and `n - 2` speaks for it: what
/// `is_prime` has seen of every number that it reports as a prime.
pub open spec fn probable_prime(n: nat) -> bool {
    n == 2 || n == 3 || (n >= 4 && has_supporting_base(n))
}

/// A number is its odd part times 2 to its exponent of 2.
pub proof fn lemma_split_power_of_two(m: nat)
    ensures
        m == odd_part(m) * pow(2, two_exponent(m)),
        m > 0 ==> odd_part(m) % 2 == 1,
    decreases m,
{
    if m == 0 || m % 2 == 1 {
        lemma_pow0(2);
    } else {
        lemma_split_power_of_two(m / 2);
        let e = two_exponent(m / 2);
        assert(pow(2, e + 1) == 2 * pow(2, e)) by {
            reveal(pow);
        }
        assert(odd_part(m / 2) * (2 * pow(2, e)) == 2 * (odd_part(m / 2) * pow(2, e)))
            by (nonlinear_arith);
    }
}

/// Splits `m` into the exponent `r` of 2 in it and its odd part `d`, so that
/// `m == d * 2^r`.
pub fn split_power_of_two(m: u128) -> (rd: (u32, u128))
    requires
        m > 0,
    ensures
        rd.0 == two_exponent(m as nat),
        rd.1 == odd_part(m as nat),
        m == rd.1 * pow(2, rd.0 as nat),
        rd.1 % 2 == 1,
        rd.0 < 128,
{
    let mut r: u32 = 0;
    let mut d: u128 = m;
    proof {
        lemma_pow0(2);
    }
    while d % 2 == 0
        invariant
            d > 0,
            r < 128,
            two_exponent(m as nat) == r + two_exponent(d as nat),
            odd_part(m as nat) == odd_part(d as nat),
            m == d * pow(2, r as nat),
        decreases d,
    {
        proof {
            let half = (d / 2) as int;
            assert(pow(2, (r + 1) as nat) == 2 * pow(2, r as nat)) by {
                reveal(pow);
            }
            assert(d * pow(2, r as nat) == half * (2 * pow(2, r as nat))) by (nonlinear_arith)
                requires
                    d == 2 * half,
            ;
            if r + 1 >= 128 {
                lemma_pow_increases(2, 128, (r + 1) as nat);
                lemma_two_pow_128();
                lemma_mul_inequality(1, half, pow(2, (r + 1) as nat));
            }
        }
        d = d / 2;
        r = r + 1;
    }
    (r, d)
}

/// Each number of the chain is the square of the one before it.
pub proof fn lemma_chain_squares(n: nat, a: nat, j: nat)
    requires
        n > 0,
    ensures
        chain(n, a, j + 1) == (chain(n, a, j) * chain(n, a, j)) % n,
        chain(n, a, j + 1) == pow(chain(n, a, j) as int, 2) % (n as int),
        chain(n, a, j) < n,
{
    let d = odd_part((n - 1) as nat);
    let e = (d * pow(2, j)) as nat;
    let x = pow(a as int, e);
    lemma_pow_positive(2, j);
    lemma_pow_positive(2, j + 1);
    assert(pow(2, j + 1) == 2 * pow(2, j)) by {
        reveal(pow);
    }
    assert(d * (2 * pow(2, j)) == e + e) by (nonlinear_arith)
        requires
            e == d * pow(2, j),
    ;
    lemma_pow_adds(a as int, e, e);
    lemma_mul_mod_noop(x, x, n as int);
    lemma_mod_bound(x, n as int);
    let c = chain(n, a, j) as int;
    assert(pow(c, 2) == c * c) by {
        lemma_square_is_pow2(c);
    }
}

/// Runs one round of the test on `n` with the base `a`, given the exponent
/// `r` of 2 in `n - 1` and the odd part `d` of `n - 1`. Says whether the
/// base speaks for `n`.
pub fn miller_rabin_round(n: u128, r: u32, d: u128, a: u128) -> (pass: bool)
    requires
        n > 0,
        r == two_exponent((n - 1) as nat),
        d == odd_part((n - 1) as nat),
    ensures
        pass == strong_probable_prime(n as nat, a as nat),
{
    let mut x: u128 = pow_mod(a, d, n);
    proof {
        lemma_pow0(2);
        lemma_mul_basics(d as int);
    }
    if x == 1 || x == n - 1 {
        return true;
    }
    let mut j: u32 = 1;
    while j < r
        invariant
            n > 0,
            1 <= j,
            j <= r || r == 0,
            r == two_exponent((n - 1) as nat),
            x == chain(n as nat, a as nat, (j - 1) as nat),
            chain(n as nat, a as nat, 0) != 1,
            chain(n as nat, a as nat, 0) != n - 1,
            forall|i: nat| 1 <= i < j ==> #[trigger] chain(n as nat, a as nat, i) != n - 1,
        decreases r - j,
    {
        proof {
            lemma_chain_squares(n as nat, a as nat, (j - 1) as nat);
        }
        x = pow_mod(x, 2, n);
        if x == n - 1 {
            return true;
        }
        j = j + 1;
    }
    false
}

/// Walking the chain of squares of a prime down from a place that holds 1,
/// one meets `n - 1`, or 1 all the way to the start.
proof fn lemma_chain_descent(n: nat, a: nat, j: nat)
    requires
        prime(n),
        chain(n, a, j) == 1,
    ensures
        chain(n, a, 0) == 1 || exists|i: nat| i < j && #[trigger] chain(n, a, i) == n - 1,
    decreases j,
{
    if j > 0 {
        let i = (j - 1) as nat;
        lemma_chain_squares(n, a, i);
        lemma_square_root_of_one(chain(n, a, i), n);
        if chain(n, a, i) == 1 {
            lemma_chain_descent(n, a, i);
        }
    }
}

/// A prime is never shown to be composite: every base that the prime does
/// not divide speaks for it.
pub proof fn lemma_prime_passes_round(n: nat, a: nat)
    requires
        prime(n),
        !divides(n, a),
    ensures
        strong_probable_prime(n, a),
{
    let m = (n - 1) as nat;
    let r = two_exponent(m);
    lemma_split_power_of_two(m);
    lemma_pow_positive(2, r);
    lemma_fermat_little(a, n);
    lemma_chain_descent(n, a, r);
}

/// Every prime is a probable prime.
pub proof fn lemma_prime_is_probable_prime(n: nat)
    requires
        prime(n),
    ensures
        probable_prime(n),
{
    if n >= 4 {
        assert(n >= 5) by {
            if n == 4 {
                assert(divides(2, 4));
            }
        }
        lemma_small_mod(2, n);
        lemma_prime_passes_round(n, 2);
    }
}

/// A number that some base shows to be composite is composite.
pub proof fn lemma_refuted_is_composite(n: nat)
    requires
        n >= 4,
        has_refuting_base(n),
    ensures
        composite(n),
{
    let a = choose|a: nat| 2 <= a <= n - 2 && !#[trigger] strong_probable_prime(n, a);
    if prime(n) {
        lemma_small_mod(a, n);
        lemma_prime_passes_round(n, a);
    }
}

/// Runs up to `k` rounds of the test on `n`, each with a base drawn at
/// random between 2 and `n - 2`, and stops at the first base that shows `n`
/// to be composite.
pub fn miller_rabin_test(n: u128, k: usize) -> (res: MillerRabinResult)
    requires
        n >= 4,
    ensures
        res == MillerRabinResult::Composite ==> k > 0 && has_refuting_base(n as nat) && composite(
            n as nat,
        ),
        res == MillerRabinResult::ProbablyPrime ==> k == 0 || has_supporting_base(n as nat),
        prime(n as nat) ==> res == MillerRabinResult::ProbablyPrime,
{
    let (r, d) = split_power_of_two(n - 1);
    let mut rng = rand::thread_rng();
    let mut round: usize = 0;
    while round < k
        invariant
            n >= 4,
            round <= k,
            r == two_exponent((n - 1) as nat),
            d == odd_part((n - 1) as nat),
            round > 0 ==> has_supporting_base(n as nat),
        decreases k - round,
    {
        let a: u128 = draw_in_range(&mut rng, 2, n - 1);
        if !miller_rabin_round(n, r, d, a) {
            proof {
                assert(!strong_probable_prime(n as nat, a as nat));
                lemma_refuted_is_composite(n as nat);
            }
            return MillerRabinResult::Composite;
        }
        assert(strong_probable_prime(n as nat, a as nat));
        round = round + 1;
    }
    MillerRabinResult::ProbablyPrime
}

/// Whether `n` is a prime, up to the error of the Miller-Rabin test: a prime
/// is always reported as one; a composite is reported as a prime only if
/// each of the `ROUNDS` bases drawn speaks for it.
pub fn is_prime(n: u128) -> (res: bool)
    ensures
        prime(n as nat) ==> res,
        res ==> probable_prime(n as nat),
        !res && n >= 2 ==> composite(n as nat) && has_refuting_base(n as nat),
{
    if n == 0 || n == 1 {
        false
    } else if n == 2 || n == 3 {
        true
    } else {
        miller_rabin_test(n, ROUNDS) == MillerRabinResult::ProbablyPrime
    }
}

} // verus!
