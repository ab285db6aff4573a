//! Fermat's little theorem and the square roots of 1 modulo a prime: the two
//! facts by which a prime passes every round of the Miller-Rabin test.

use crate::divisibility::{divides, lemma_euclid, prime};
use crate::product::{factorial, lemma_product_of_rearranged_range, product, within_one_to};
use vstd::arithmetic::div_mod::*;
use vstd::arithmetic::mul::*;
use vstd::arithmetic::power::*;
use vstd::prelude::*;

verus! {

/// The residues modulo `p` of `a`, `2a`, ..., `ka`.
pub open spec fn residues_of_multiples(a: nat, p: nat, k: nat) -> Seq<nat> {
    Seq::new(k, |i: int| ((a * (i + 1)) % (p as int)) as nat)
}

/// A prime divides no product of two numbers it does not divide; here the
/// second is a number between 1 and `p - 1`.
pub proof fn lemma_multiple_not_divisible(a: nat, p: nat, j: nat)
    requires
        prime(p),
        !divides(p, a),
        1 <= j < p,
    ensures
        (a * j) % p != 0,
{
    if (a * j) % p == 0 {
        lemma_euclid(p, a, j);
        lemma_small_mod(j, p);
    }
}

/// Modulo a prime `p`, the multiples `ia` and `ja` of a number that `p` does
/// not divide differ for `1 <= i < j < p`.
pub proof fn lemma_multiples_differ(a: nat, p: nat, i: nat, j: nat)
    requires
        prime(p),
        !divides(p, a),
        1 <= i < j < p,
    ensures
        (a * i) % p != (a * j) % p,
{
    if (a * i) % p == (a * j) % p {
        lemma_mod_equivalence((a * j) as int, (a * i) as int, p as int);
        lemma_mul_is_distributive_sub(a as int, j as int, i as int);
        assert(a * ((j - i) as nat) == a * j - a * i);
        lemma_multiple_not_divisible(a, p, (j - i) as nat);
    }
}

/// The residues of `a`, `2a`, ..., `(p - 1)a` modulo a prime `p` that does
/// not divide `a` are the numbers 1 to `p - 1` in some order.
pub proof fn lemma_residues_rearrange_range(a: nat, p: nat)
    requires
        prime(p),
        !divides(p, a),
    ensures
        residues_of_multiples(a, p, (p - 1) as nat).len() == p - 1,
        residues_of_multiples(a, p, (p - 1) as nat).no_duplicates(),
        within_one_to(residues_of_multiples(a, p, (p - 1) as nat), (p - 1) as nat),
{
    let s = residues_of_multiples(a, p, (p - 1) as nat);
    assert forall|i: int| 0 <= i < s.len() implies 1 <= #[trigger] s[i] <= p - 1 by {
        lemma_multiple_not_divisible(a, p, (i + 1) as nat);
        lemma_mod_bound(a * (i + 1), p as int);
    }
    assert forall|i: int, j: int| 0 <= i < s.len() && 0 <= j < s.len() && i != j implies s[i]
        != s[j] by {
        if i < j {
            lemma_multiples_differ(a, p, (i + 1) as nat, (j + 1) as nat);
        } else {
            lemma_multiples_differ(a, p, (j + 1) as nat, (i + 1) as nat);
        }
    }
}

/// The product of the residues of `a`, `2a`, ..., `ka` is congruent to
/// `a^k * k!`.
pub proof fn lemma_residues_product(a: nat, p: nat, k: nat)
    requires
        p > 0,
    ensures
        product(residues_of_multiples(a, p, k)) % p == (pow(a as int, k) * factorial(k)) % (
        p as int),
    decreases k,
{
    let m = p as int;
    if k == 0 {
        lemma_pow0(a as int);
    } else {
        let j = (k - 1) as nat;
        let s = residues_of_multiples(a, p, k);
        assert(s.drop_last() =~= residues_of_multiples(a, p, j));
        lemma_residues_product(a, p, j);
        let before = product(residues_of_multiples(a, p, j)) as int;
        let scaled = pow(a as int, j) * factorial(j);
        let ak = (a * k) as int;
        assert(s.last() == ak % m);
        assert(product(s) == before * (ak % m));
        lemma_mul_mod_noop_right(before, ak, m);
        lemma_mul_mod_noop_left(before, ak, m);
        lemma_mul_mod_noop_left(scaled, ak, m);
        assert(pow(a as int, k) == a * pow(a as int, j)) by {
            reveal(pow);
        }
        assert(scaled * ak == pow(a as int, k) * factorial(k)) by {
            let x = pow(a as int, j);
            let f = factorial(j) as int;
            assert((x * f) * (a * k) == (a * x) * (k * f)) by (nonlinear_arith);
        }
    }
}

/// A prime `p` does not divide `k!` for `k < p`.
pub proof fn lemma_factorial_not_divisible(p: nat, k: nat)
    requires
        prime(p),
        k < p,
    ensures
        !divides(p, factorial(k)),
    decreases k,
{
    if k == 0 {
        lemma_small_mod(1, p);
    } else {
        lemma_factorial_not_divisible(p, (k - 1) as nat);
        if divides(p, factorial(k)) {
            lemma_euclid(p, k, factorial((k - 1) as nat));
            lemma_small_mod(k, p);
        }
    }
}

/// Fermat's little theorem: `a^(p-1)` leaves the remainder 1 on division by
/// a prime `p` that does not divide `a`.
pub proof fn lemma_fermat_little(a: nat, p: nat)
    requires
        prime(p),
        !divides(p, a),
    ensures
        pow(a as int, (p - 1) as nat) % (p as int) == 1,
{
    let m = p as int;
    let k = (p - 1) as nat;
    let f = factorial(k);
    let e = pow(a as int, k);
    if a == 0 {
        lemma_small_mod(0, p);
    }
    lemma_pow_positive(a as int, k);
    lemma_residues_rearrange_range(a, p);
    lemma_product_of_rearranged_range(residues_of_multiples(a, p, k), k);
    lemma_residues_product(a, p, k);
    // f % p == (e * f) % p, so p divides (e - 1) * f
    lemma_mod_equivalence(e * f, f as int, m);
    let x = (e - 1) as nat;
    assert(x * f == e * f - f) by (nonlinear_arith)
        requires
            x == e - 1,
    ;
    lemma_factorial_not_divisible(p, k);
    lemma_euclid(p, x, f);
    lemma_add_mod_noop(x as int, 1, m);
    lemma_small_mod(1, p);
}

/// Modulo a prime, 1 has no square roots but 1 and -1.
pub proof fn lemma_square_root_of_one(x: nat, p: nat)
    requires
        prime(p),
        x < p,
        (x * x) % p == 1,
    ensures
        x == 1 || x == p - 1,
{
    if x == 0 {
        lemma_small_mod(0, p);
    } else {
        let below = (x - 1) as nat;
        let above = x + 1;
        assert(below * above == x * x - 1) by (nonlinear_arith)
            requires
                below == x - 1,
                above == x + 1,
        ;
        lemma_small_mod(1, p);
        lemma_mod_equivalence((x * x) as int, 1, p as int);
        lemma_euclid(p, below, above);
        if divides(p, below) {
            lemma_small_mod(below, p);
        } else {
            if above < p {
                lemma_small_mod(above, p);
            }
        }
    }
}

} // verus!
