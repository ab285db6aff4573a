//! Double-width unsigned arithmetic: the full 256-bit product of two 128-bit
//! integers and its remainder modulo a 128-bit integer.

use vstd::arithmetic::div_mod::*;
use vstd::arithmetic::mul::*;
use vstd::arithmetic::power::*;
use vstd::prelude::*;

verus! {

/// Two to the 64th power: the base in which 128-bit operands are split into
/// two digits.
pub const LIMB: u128 = 0x1_0000_0000_0000_0000;

/// Two to the 128th power.
pub open spec fn two_pow_128() -> nat {
    0x1_0000_0000_0000_0000_0000_0000_0000_0000nat
}

/// An unsigned 256-bit integer, held as its high and low 128-bit halves.
#[derive(Clone, Copy, Debug)]
pub struct U256 {
    pub hi: u128,
    pub lo: u128,
}

impl View for U256 {
    type V = nat;

    /// The number that the two halves stand for.
    open spec fn view(&self) -> nat {
        self.hi as nat * two_pow_128() + self.lo as nat
    }
}

/// The product of two digits below `LIMB` fits in 128 bits.
proof fn lemma_digit_product_bound(x: u128, y: u128)
    requires
        x < LIMB,
        y < LIMB,
    ensures
        x * y <= 0xffff_ffff_ffff_fffe_0000_0000_0000_0001,
{
    assert(x * y <= 0xffff_ffff_ffff_ffff * 0xffff_ffff_ffff_ffff) by (nonlinear_arith)
        requires
            0 <= x <= 0xffff_ffff_ffff_ffff,
            0 <= y <= 0xffff_ffff_ffff_ffff,
    ;
}

/// Schoolbook expansion of a product of two two-digit numbers.
proof fn lemma_two_digit_product(a1: int, a0: int, b1: int, b0: int, l: int)
    ensures
        (a1 * l + a0) * (b1 * l + b0) == (a1 * b1) * (l * l) + (a0 * b1 + a1 * b0) * l + a0 * b0,
{
    let x = a1 * l + a0;
    lemma_mul_is_distributive_add(x, b1 * l, b0);
    lemma_mul_is_distributive_add_other_way(b1 * l, a1 * l, a0);
    lemma_mul_is_distributive_add_other_way(b0, a1 * l, a0);
    assert((a1 * l) * (b1 * l) == (a1 * b1) * (l * l)) by (nonlinear_arith);
    assert(a0 * (b1 * l) == (a0 * b1) * l) by (nonlinear_arith);
    assert((a1 * l) * b0 == (a1 * b0) * l) by (nonlinear_arith);
    lemma_mul_is_distributive_add_other_way(l, a0 * b1, a1 * b0);
}

/// Multiplies two 128-bit integers without losing the high half of the
/// product.
pub fn widening_mul(a: u128, b: u128) -> (w: U256)
    ensures
        w@ == (a as nat) * (b as nat),
{
    let a0: u128 = a % LIMB;
    let a1: u128 = a / LIMB;
    let b0: u128 = b % LIMB;
    let b1: u128 = b / LIMB;
    proof {
        lemma_digit_product_bound(a0, b0);
        lemma_digit_product_bound(a0, b1);
        lemma_digit_product_bound(a1, b0);
        lemma_digit_product_bound(a1, b1);
    }
    let p00: u128 = a0 * b0;
    let p01: u128 = a0 * b1;
    let p10: u128 = a1 * b0;
    let p11: u128 = a1 * b1;
    // Column sums, each carrying its overflow into the next column.
    let t: u128 = p01 + p00 / LIMB;
    let u: u128 = p10 + t % LIMB;
    let hi: u128 = p11 + t / LIMB + u / LIMB;
    let lo: u128 = (u % LIMB) * LIMB + p00 % LIMB;
    proof {
        // a * b == p11 * 2^128 + (p01 + p10) * 2^64 + p00, and the column
        // sums add up to the same.
        lemma_two_digit_product(a1 as int, a0 as int, b1 as int, b0 as int, LIMB as int);
        assert(p11 * (LIMB * LIMB) == p11 * 0x1_0000_0000_0000_0000_0000_0000_0000_0000int);
        assert((p01 + p10) * LIMB == (p01 + p10) * 0x1_0000_0000_0000_0000);
        assert(hi * 0x1_0000_0000_0000_0000_0000_0000_0000_0000int + lo == p11
            * 0x1_0000_0000_0000_0000_0000_0000_0000_0000int + (p01 + p10)
            * 0x1_0000_0000_0000_0000 + p00);
    }
    U256 { hi, lo }
}

/// Adds two residues modulo `m` without leaving 128 bits.
pub fn add_mod(a: u128, b: u128, m: u128) -> (r: u128)
    requires
        a < m,
        b < m,
    ensures
        r == (a + b) % (m as int),
{
    if a >= m - b {
        proof {
            lemma_fundamental_div_mod_converse(a + b, m as int, 1, a + b - m);
        }
        a - (m - b)
    } else {
        proof {
            lemma_small_mod((a + b) as nat, m as nat);
        }
        a + b
    }
}

impl U256 {
    /// The remainder of the 256-bit value on division by `m`.
    ///
    /// The high half is reduced first and then doubled 128 times modulo `m`,
    /// which never needs more than 128 bits; a value that fits in the low
    /// half is reduced directly.
    pub fn rem(&self, m: u128) -> (r: u128)
        requires
            m > 0,
        ensures
            r == self@ % (m as nat),
    {
        if self.hi == 0 {
            return self.lo % m;
        }
        let mut r: u128 = self.hi % m;
        let mut i: u32 = 0;
        proof {
            lemma_pow0(2);
        }
        while i < 128
            invariant
                i <= 128,
                m > 0,
                r < m,
                r == (self.hi * pow(2, i as nat)) % (m as int),
            decreases 128 - i,
        {
            proof {
                let h = self.hi * pow(2, i as nat);
                lemma_mul_mod_noop_right(2, h, m as int);
                lemma_pow_adds(2, i as nat, 1);
                lemma_pow1(2);
                lemma_mul_is_associative(self.hi as int, pow(2, i as nat), 2);
                lemma_mul_is_commutative(2, h);
            }
            r = add_mod(r, r, m);
            i = i + 1;
        }
        let low: u128 = self.lo % m;
        proof {
            lemma_two_pow_128();
            lemma_add_mod_noop(self.hi * pow(2, 128), self.lo as int, m as int);
        }
        add_mod(r, low, m)
    }
}

/// Two to the 128th power is one more than the largest 128-bit integer.
pub proof fn lemma_two_pow_128()
    ensures
        pow(2, 128) == two_pow_128(),
        two_pow_128() == u128::MAX + 1,
{
    vstd::arithmetic::power2::lemma2_to64();
    vstd::arithmetic::power2::lemma_pow2(64);
    lemma_pow_adds(2, 64, 64);
}

} // verus!
