//! Factorization into primes: a factor is split off with Pollard's rho
//! method and factorized in turn, until what is left passes the primality
//! test.

use crate::divisibility::{divides, lemma_cofactor, lemma_euclid, lemma_prime_divides_prime, prime};
use crate::miller_rabin::{is_prime, probable_prime};
use crate::product::{
    as_nats,
    lemma_element_divides_product,
    lemma_product_concat,
    lemma_product_push,
    lemma_product_rearranged,
    product,
};
use crate::rho::pollard_rho;
use vstd::arithmetic::div_mod::lemma_small_mod;
use vstd::arithmetic::mul::*;
use vstd::prelude::*;
use vstd::seq_lib::*;

verus! {

/// No element of `s` is larger than one that comes after it.
pub open spec fn ascending(s: Seq<u128>) -> bool {
    forall|i: int, j: int| 0 <= i <= j < s.len() ==> s[i] <= s[j]
}

/// Every element of `s` is 2, 3 or a number that some base speaks for.
pub open spec fn all_probable_primes(s: Seq<u128>) -> bool {
    forall|i: int| 0 <= i < s.len() ==> probable_prime(#[trigger] s[i] as nat)
}

/// Every element of `s` is a divisor of `n`.
pub open spec fn all_divide(s: Seq<u128>, n: nat) -> bool {
    forall|i: int| 0 <= i < s.len() ==> divides(#[trigger] s[i] as nat, n)
}

/// Every element of `s` is a prime.
pub open spec fn all_primes(s: Seq<u128>) -> bool {
    forall|i: int| 0 <= i < s.len() ==> prime(#[trigger] s[i] as nat)
}

/// `slice::sort` of the standard library, on a vector of `u128`: the vector
/// is rearranged in place into ascending order. That it holds the same
/// elements afterwards, each as often as before, and that they stand in
/// ascending order is what the documentation of `sort` says.
#[verifier::external_body]
fn sort_ascending(v: &mut Vec<u128>)
    ensures
        final(v)@.to_multiset() == old(v)@.to_multiset(),
        ascending(final(v)@),
{
    v.sort();
}

/// What holds of every element of a sequence holds of every element of a
/// rearrangement of it.
proof fn lemma_rearranged_probable_primes(v: Seq<u128>, w: Seq<u128>)
    requires
        v.to_multiset() == w.to_multiset(),
        all_probable_primes(v),
    ensures
        all_probable_primes(w),
{
    assert forall|i: int| 0 <= i < w.len() implies probable_prime(#[trigger] w[i] as nat) by {
        let x = w[i];
        assert(w.contains(x));
        to_multiset_contains(w, x);
        to_multiset_contains(v, x);
        let k = v.index_of(x);
        assert(v[k] == x);
    }
}

/// Each of a sequence of probable primes divides their product.
proof fn lemma_factors_divide(s: Seq<u128>)
    requires
        all_probable_primes(s),
    ensures
        all_divide(s, product(as_nats(s))),
{
    assert forall|i: int| 0 <= i < as_nats(s).len() implies as_nats(s)[i] > 0 by {
        assert(probable_prime(s[i] as nat));
    }
    assert forall|i: int| 0 <= i < s.len() implies divides(
        #[trigger] s[i] as nat,
        product(as_nats(s)),
    ) by {
        lemma_element_divides_product(as_nats(s), i);
    }
}

/// A prime that divides a product of numbers divides one of them.
pub proof fn lemma_prime_divides_element(p: nat, s: Seq<nat>) -> (k: int)
    requires
        prime(p),
        divides(p, product(s)),
    ensures
        0 <= k < s.len(),
        divides(p, s[k]),
    decreases s.len(),
{
    if s.len() == 0 {
        lemma_small_mod(1, p);
        0
    } else {
        lemma_euclid(p, product(s.drop_last()), s.last());
        if divides(p, s.last()) {
            s.len() - 1
        } else {
            lemma_prime_divides_element(p, s.drop_last())
        }
    }
}

/// The last element of an ascending sequence of primes is at most the last
/// element of any other with the same product.
proof fn lemma_largest_prime_factor(s: Seq<u128>, t: Seq<u128>)
    requires
        s.len() > 0,
        t.len() > 0,
        ascending(t),
        all_primes(s),
        all_primes(t),
        product(as_nats(s)) == product(as_nats(t)),
    ensures
        s.last() <= t.last(),
{
    let p = s.last() as nat;
    assert(prime(s[s.len() - 1] as nat));
    assert forall|i: int| 0 <= i < as_nats(s).len() implies as_nats(s)[i] > 0 by {
        assert(prime(s[i] as nat));
    }
    lemma_element_divides_product(as_nats(s), s.len() - 1);
    let k = lemma_prime_divides_element(p, as_nats(t));
    assert(prime(t[k] as nat));
    lemma_prime_divides_prime(p, t[k] as nat);
}

/// The fundamental theorem of arithmetic, as far as it says that a number
/// has one factorization into primes only: two ascending sequences of
/// primes with the same product are the same sequence.
///
/// So the contract of `factorization` leaves one result only, whenever the
/// numbers that passed the primality test are primes indeed.
pub proof fn lemma_prime_factorization_unique(s: Seq<u128>, t: Seq<u128>)
    requires
        ascending(s),
        ascending(t),
        all_primes(s),
        all_primes(t),
        product(as_nats(s)) == product(as_nats(t)),
    ensures
        s == t,
    decreases s.len(),
{
    assert forall|i: int| 0 <= i < as_nats(s).len() implies as_nats(s)[i] > 0 by {
        assert(prime(s[i] as nat));
    }
    assert forall|i: int| 0 <= i < as_nats(t).len() implies as_nats(t)[i] > 0 by {
        assert(prime(t[i] as nat));
    }
    if s.len() == 0 || t.len() == 0 {
        // A product of primes is 1 for the empty sequence alone.
        if s.len() > 0 {
            assert(prime(s[s.len() - 1] as nat));
            lemma_element_divides_product(as_nats(s), s.len() - 1);
        }
        if t.len() > 0 {
            assert(prime(t[t.len() - 1] as nat));
            lemma_element_divides_product(as_nats(t), t.len() - 1);
        }
        assert(s =~= t);
    } else {
        lemma_largest_prime_factor(s, t);
        lemma_largest_prime_factor(t, s);
        let p = s.last();
        let s0 = s.drop_last();
        let t0 = t.drop_last();
        assert(as_nats(s).drop_last() =~= as_nats(s0));
        assert(as_nats(t).drop_last() =~= as_nats(t0));
        assert(prime(s[s.len() - 1] as nat));
        assert(product(as_nats(s)) == product(as_nats(s0)) * p);
        assert(product(as_nats(t)) == product(as_nats(t0)) * p);
        lemma_mul_is_commutative(p as int, product(as_nats(s0)) as int);
        lemma_mul_is_commutative(p as int, product(as_nats(t0)) as int);
        lemma_mul_equality_converse(
            p as int,
            product(as_nats(s0)) as int,
            product(as_nats(t0)) as int,
        );
        assert(all_primes(s0)) by {
            assert forall|i: int| 0 <= i < s0.len() implies prime(#[trigger] s0[i] as nat) by {
                assert(prime(s[i] as nat));
            }
        }
        assert(all_primes(t0)) by {
            assert forall|i: int| 0 <= i < t0.len() implies prime(#[trigger] t0[i] as nat) by {
                assert(prime(t[i] as nat));
            }
        }
        lemma_prime_factorization_unique(s0, t0);
        assert(s =~= s0.push(p));
        assert(t =~= t0.push(p));
    }
}

/// The prime factors of `n`, each as often as it divides `n`, in ascending
/// order.
///
/// The factors multiply to `n` exactly, and a prime `n` comes back alone.
/// Each factor has passed the primality test. Where the factors are primes
/// indeed, no other result meets this contract: see
/// `lemma_prime_factorization_unique`.
pub fn factorization(n: u128) -> (factors: Vec<u128>)
    requires
        n >= 2,
    ensures
        product(as_nats(factors@)) == n,
        ascending(factors@),
        all_probable_primes(factors@),
        all_divide(factors@, n as nat),
        prime(n as nat) ==> factors@ == seq![n],
    decreases n,
{
    if is_prime(n) {
        let factors: Vec<u128> = vec![n];
        proof {
            assert(as_nats(factors@) =~= seq![n as nat]);
            assert(seq![n as nat].drop_last() =~= Seq::<nat>::empty());
            assert(product(Seq::<nat>::empty()) == 1);
            assert(product(seq![n as nat]) == 1 * (n as nat));
            lemma_factors_divide(factors@);
        }
        return factors;
    }
    let mut ret: Vec<u128> = Vec::new();
    let mut rest: u128 = n;
    proof {
        assert(as_nats(ret@) =~= Seq::<nat>::empty());
    }
    while !is_prime(rest)
        invariant
            2 <= rest <= n,
            product(as_nats(ret@)) * rest == n,
            all_probable_primes(ret@),
        decreases rest,
    {
        let factor: u128 = pollard_rho(rest);
        // The factor is a proper one, so both what is split off and what is
        // left are smaller than `rest`.
        assert(1 < factor < rest && rest % factor == 0);
        let mut found: Vec<u128> = factorization(factor);
        proof {
            let before = as_nats(ret@);
            let added = as_nats(found@);
            assert(as_nats(ret@ + found@) =~= before + added);
            lemma_product_concat(before, added);
            lemma_cofactor(factor as nat, rest as nat);
            lemma_mul_is_associative(
                product(before) as int,
                factor as int,
                (rest / factor) as int,
            );
            assert(rest / factor >= 2) by {
                if rest / factor < 2 {
                    assert(factor * (rest / factor) <= factor) by (nonlinear_arith)
                        requires
                            rest / factor < 2,
                            factor >= 0,
                    ;
                }
            }
            assert(rest / factor < rest) by {
                assert(factor * (rest / factor) >= 2 * (rest / factor)) by (nonlinear_arith)
                    requires
                        factor >= 2,
                        rest / factor >= 0,
                ;
            }
        }
        ret.append(&mut found);
        rest = rest / factor;
    }
    if rest > 1 {
        proof {
            assert(as_nats(ret@.push(rest)) =~= as_nats(ret@).push(rest as nat));
            lemma_product_push(as_nats(ret@), rest as nat);
        }
        ret.push(rest);
    }
    let ghost unsorted = ret@;
    sort_ascending(&mut ret);
    proof {
        lemma_product_rearranged(unsorted, ret@);
        lemma_rearranged_probable_primes(unsorted, ret@);
        lemma_factors_divide(ret@);
    }
    ret
}

} // verus!
