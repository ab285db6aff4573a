//! Divisibility, primality and the greatest common divisor, with the
//! classical facts that the primality test and the factor search rest on.

use vstd::arithmetic::div_mod::*;
use vstd::arithmetic::mul::*;
use vstd::prelude::*;

verus! {

/// `d` is a positive divisor of `n`.
pub open spec fn divides(d: nat, n: nat) -> bool {
    d > 0 && n % d == 0
}

/// `n` is a prime number: at least 2 and without a divisor strictly between
/// 1 and itself.
pub open spec fn prime(n: nat) -> bool {
    n >= 2 && forall|d: nat| 1 < d < n ==> !#[trigger] divides(d, n)
}

/// `n` is a composite number: it has a divisor strictly between 1 and itself.
pub open spec fn composite(n: nat) -> bool {
    exists|d: nat| 1 < d < n && #[trigger] divides(d, n)
}

/// `d` is the smallest divisor of `n` above 1.
pub open spec fn is_smallest_divisor(d: nat, n: nat) -> bool {
    &&& 1 < d
    &&& divides(d, n)
    &&& forall|e: nat| 1 < e < d ==> !#[trigger] divides(e, n)
}

/// The greatest common divisor, by Euclid's recurrence. `gcd(0, 0)` is 0.
pub open spec fn greatest_common_divisor(a: nat, b: nat) -> nat
    decreases b,
{
    if b == 0 {
        a
    } else {
        greatest_common_divisor(b, a % b)
    }
}

/// `g` is a common divisor of `a` and `b` that every common divisor divides.
/// For `a == b == 0` this holds of 0 alone.
pub open spec fn is_greatest_common_divisor(g: nat, a: nat, b: nat) -> bool {
    &&& g == 0 <==> a == 0 && b == 0
    &&& g > 0 ==> divides(g, a) && divides(g, b)
    &&& forall|d: nat| divides(d, a) && divides(d, b) ==> #[trigger] divides(d, g)
}

/// The greatest common divisor of two 128-bit integers, by Euclid's
/// algorithm.
pub fn gcd(a: u128, b: u128) -> (g: u128)
    ensures
        g == greatest_common_divisor(a as nat, b as nat),
        is_greatest_common_divisor(g as nat, a as nat, b as nat),
    decreases b,
{
    proof {
        lemma_gcd_is_greatest_common_divisor(a as nat, b as nat);
    }
    if b == 0 {
        a
    } else {
        gcd(b, a % b)
    }
}

/// A number that divides `x` and `y` divides `q * x + y`.
pub proof fn lemma_divides_combination(d: nat, q: int, x: int, y: int)
    requires
        d > 0,
        x % (d as int) == 0,
        y % (d as int) == 0,
    ensures
        (q * x + y) % (d as int) == 0,
{
    let m = d as int;
    lemma_mul_mod_noop_right(q, x, m);
    lemma_mul_basics(q);
    lemma_add_mod_noop(q * x, y, m);
    lemma_small_mod(0, d);
}

/// A positive number is at least as large as each of its divisors.
pub proof fn lemma_divisor_at_most(d: nat, n: nat)
    requires
        n > 0,
        divides(d, n),
    ensures
        d <= n,
{
    if d > n {
        lemma_small_mod(n, d);
    }
}

/// The quotient by a divisor is a divisor too, and the two multiply back.
pub proof fn lemma_cofactor(d: nat, n: nat)
    requires
        divides(d, n),
    ensures
        n == d * (n / d),
        n > 0 ==> divides(n / d, n),
{
    lemma_fundamental_div_mod(n as int, d as int);
    if n > 0 {
        let q = n / d;
        if q == 0 {
            lemma_mul_basics(d as int);
        }
        lemma_mul_is_commutative(d as int, q as int);
        lemma_mod_multiples_basic(d as int, q as int);
    }
}

/// Euclid's recurrence yields a common divisor.
pub proof fn lemma_gcd_divides(a: nat, b: nat)
    ensures
        greatest_common_divisor(a, b) == 0 <==> a == 0 && b == 0,
        greatest_common_divisor(a, b) > 0 ==> divides(greatest_common_divisor(a, b), a) && divides(
            greatest_common_divisor(a, b),
            b,
        ),
    decreases b,
{
    let g = greatest_common_divisor(a, b);
    if b == 0 {
        if a > 0 {
            lemma_mod_self_0(a as int);
            lemma_small_mod(0, a);
        }
    } else {
        lemma_gcd_divides(b, a % b);
        lemma_mod_bound(a as int, b as int);
        lemma_fundamental_div_mod(a as int, b as int);
        lemma_mul_is_commutative(b as int, (a / b) as int);
        lemma_divides_combination(g, (a / b) as int, b as int, (a % b) as int);
    }
}

/// Every common divisor divides what Euclid's recurrence yields.
pub proof fn lemma_gcd_greatest(a: nat, b: nat, d: nat)
    requires
        divides(d, a),
        divides(d, b),
    ensures
        divides(d, greatest_common_divisor(a, b)),
    decreases b,
{
    if b != 0 {
        lemma_fundamental_div_mod(a as int, b as int);
        lemma_mul_is_commutative(b as int, (a / b) as int);
        lemma_mul_unary_negation((a / b) as int, b as int);
        lemma_divides_combination(d, -((a / b) as int), b as int, a as int);
        lemma_gcd_greatest(b, a % b, d);
    }
}

/// Euclid's recurrence computes the greatest common divisor.
pub proof fn lemma_gcd_is_greatest_common_divisor(a: nat, b: nat)
    ensures
        is_greatest_common_divisor(greatest_common_divisor(a, b), a, b),
{
    lemma_gcd_divides(a, b);
    assert forall|d: nat| divides(d, a) && divides(d, b) implies #[trigger] divides(
        d,
        greatest_common_divisor(a, b),
    ) by {
        lemma_gcd_greatest(a, b, d);
    }
}

/// Two numbers with the defining property of the greatest common divisor of
/// the same pair are equal.
pub proof fn lemma_gcd_unique(g: nat, h: nat, a: nat, b: nat)
    requires
        is_greatest_common_divisor(g, a, b),
        is_greatest_common_divisor(h, a, b),
    ensures
        g == h,
{
    if g > 0 {
        assert(divides(g, h));
        assert(divides(h, g));
        lemma_divisor_at_most(g, h);
        lemma_divisor_at_most(h, g);
    }
}

/// Bezout's identity: the greatest common divisor is an integer combination
/// of the two numbers. Returns the coefficients.
pub proof fn lemma_bezout(a: nat, b: nat) -> (c: (int, int))
    ensures
        c.0 * a + c.1 * b == greatest_common_divisor(a, b),
    decreases b,
{
    if b == 0 {
        (1, 0)
    } else {
        let (x, y) = lemma_bezout(b, a % b);
        let q = (a / b) as int;
        let r = (a % b) as int;
        lemma_fundamental_div_mod(a as int, b as int);
        // x * b + y * r == g and a == b * q + r
        assert(y * a == y * (b * q) + y * r) by {
            lemma_mul_is_distributive_add(y, b * q, r);
        }
        assert(y * (b * q) == (q * y) * b) by (nonlinear_arith);
        assert((x - q * y) * b == x * b - (q * y) * b) by (nonlinear_arith);
        (y, x - q * y)
    }
}

/// The greatest common divisor of a prime and a number it does not divide
/// is 1.
pub proof fn lemma_gcd_with_prime(x: nat, p: nat)
    requires
        prime(p),
        !divides(p, x),
    ensures
        greatest_common_divisor(x, p) == 1,
{
    let g = greatest_common_divisor(x, p);
    lemma_gcd_divides(x, p);
    lemma_divisor_at_most(g, p);
}

/// Euclid's lemma: a prime that divides a product divides one of the factors.
pub proof fn lemma_euclid(p: nat, x: nat, y: nat)
    requires
        prime(p),
        divides(p, x * y),
    ensures
        divides(p, x) || divides(p, y),
{
    if !divides(p, x) {
        lemma_gcd_with_prime(x, p);
        let (u, v) = lemma_bezout(x, p);
        // u * x + v * p == 1, hence y == u * (x * y) + (v * y) * p
        assert(y == u * (x * y) + (v * y) * p) by (nonlinear_arith)
            requires
                u * x + v * p == 1,
        ;
        lemma_mod_self_0(p as int);
        lemma_divides_combination(p, v * y, p as int, 0);
        lemma_divides_combination(p, u, (x * y) as int, (v * y) * p);
    }
}

/// A prime that divides a prime is that prime.
pub proof fn lemma_prime_divides_prime(p: nat, q: nat)
    requires
        prime(p),
        prime(q),
        divides(p, q),
    ensures
        p == q,
{
    lemma_divisor_at_most(p, q);
}

/// A number above 1 without a divisor `e` with `1 < e` and `e * e <= n` is
/// a prime.
pub proof fn lemma_prime_by_small_divisors(n: nat, bound: nat)
    requires
        n >= 2,
        bound * bound > n,
        forall|e: nat| 1 < e < bound ==> !#[trigger] divides(e, n),
    ensures
        prime(n),
{
    assert forall|d: nat| 1 < d < n implies !#[trigger] divides(d, n) by {
        if divides(d, n) {
            let c = n / d;
            lemma_cofactor(d, n);
            assert(c >= bound) by {
                if c <= 1 {
                    assert(d * c <= d) by (nonlinear_arith)
                        requires
                            c <= 1,
                            d >= 0,
                    ;
                }
                if c >= n {
                    assert(d * c >= 2 * n) by (nonlinear_arith)
                        requires
                            c >= n,
                            d >= 2,
                    ;
                }
            }
            assert(d >= bound);
            assert(d * c >= bound * bound) by (nonlinear_arith)
                requires
                    d >= bound,
                    c >= bound,
            ;
        }
    }
}

/// The smallest divisor of `n` above 1, by trial division; `n` itself when
/// `n` is a prime.
pub fn smallest_divisor(n: u128) -> (d: u128)
    requires
        n >= 2,
    ensures
        is_smallest_divisor(d as nat, n as nat),
        d <= n,
        d == n <==> prime(n as nat),
{
    let mut d: u128 = 2;
    while d <= n / d
        invariant
            2 <= d <= n,
            forall|e: nat| 1 < e < d ==> !#[trigger] divides(e, n as nat),
        decreases n - d,
    {
        if n % d == 0 {
            proof {
                if d == n {
                    lemma_div_by_self(n as int);
                }
            }
            return d;
        }
        proof {
            lemma_div_is_ordered_by_denominator(n as int, 2, d as int);
        }
        d = d + 1;
    }
    proof {
        let q = (n / d) as int;
        lemma_fundamental_div_mod(n as int, d as int);
        lemma_mod_bound(n as int, d as int);
        assert(d * d > n) by (nonlinear_arith)
            requires
                n == d * q + n % d,
                n % d < d,
                q < d,
                d > 0,
                q >= 0,
        ;
        lemma_prime_by_small_divisors(n as nat, d as nat);
        lemma_mod_self_0(n as int);
    }
    n
}

} // verus!
