//! Multiplication and exponentiation modulo a 128-bit integer.

use crate::wide::widening_mul;
use vstd::arithmetic::div_mod::*;
use vstd::arithmetic::mul::*;
use vstd::arithmetic::power::*;
use vstd::prelude::*;

verus! {

/// `a * b` reduced modulo `m`, computed over the full 256-bit product.
pub fn mul_mod(a: u128, b: u128, m: u128) -> (r: u128)
    requires
        m > 0,
    ensures
        r == (a * b) % (m as int),
        r < m,
{
    let wide = widening_mul(a, b);
    proof {
        lemma_mod_bound(a * b, m as int);
    }
    wide.rem(m)
}

/// `a` raised to the power `n`, reduced modulo `m`, by repeated squaring.
pub fn pow_mod(a: u128, n: u128, m: u128) -> (r: u128)
    requires
        m > 0,
    ensures
        r == pow(a as int, n as nat) % (m as int),
        r < m,
    decreases n,
{
    if n == 0 {
        proof {
            lemma_pow0(a as int);
        }
        1 % m
    } else if n == 1 {
        proof {
            lemma_pow1(a as int);
        }
        a % m
    } else {
        let half: u128 = n / 2;
        let t: u128 = pow_mod(a, half, m);
        let square: u128 = mul_mod(t, t, m);
        proof {
            let h = pow(a as int, half as nat);
            lemma_mul_mod_noop(h, h, m as int);
            lemma_pow_adds(a as int, half as nat, half as nat);
        }
        if n % 2 == 0 {
            square
        } else {
            proof {
                let s = pow(a as int, (2 * half) as nat);
                lemma_mul_mod_noop_left(s, a as int, m as int);
                lemma_pow_adds(a as int, (2 * half) as nat, 1);
                lemma_pow1(a as int);
            }
            mul_mod(square, a, m)
        }
    }
}

} // verus!
