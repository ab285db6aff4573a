//! Pollard's rho method: the search for a proper factor of a composite
//! number along the sequence `x, f(x), f(f(x)), ...` with
//! `f(v) = (v * v + 1) mod n`.
//!
//! The search goes in batches of 1, 2, 4, 8, ... steps. Each step is
//! compared with the value that the sequence had when its batch began, the
//! checkpoint. A step whose distance from the checkpoint has a divisor in
//! common with `n` ends the search: with that common divisor if it is
//! smaller than `n`, with nothing if it is `n` itself.

use crate::divisibility::{
    composite,
    divides,
    gcd,
    greatest_common_divisor,
    is_smallest_divisor,
    lemma_divisor_at_most,
    lemma_gcd_is_greatest_common_divisor,
    smallest_divisor,
};
use crate::modular::mul_mod;
use crate::product::{lemma_distinct_bounded_len, within_one_to};
use crate::wide::lemma_two_pow_128;
use vstd::arithmetic::div_mod::*;
use vstd::arithmetic::mul::*;
use vstd::arithmetic::power::*;
use vstd::prelude::*;

verus! {

/// One step of the sequence: `x * x + 1` modulo `n`.
pub open spec fn rho_step(n: nat, x: nat) -> nat {
    (x * x + 1) % n
}

/// The sequence after `i` steps from the seed.
pub open spec fn rho_orbit(n: nat, seed: nat, i: nat) -> nat
    decreases i,
{
    if i == 0 {
        seed
    } else {
        rho_step(n, rho_orbit(n, seed, (i - 1) as nat))
    }
}

/// The number of steps taken before the batch of step `i` began: one less
/// than the largest power of 2 that is at most `i`.
pub open spec fn checkpoint(i: nat) -> nat
    decreases i,
{
    if i <= 1 {
        0
    } else {
        2 * checkpoint(i / 2) + 1
    }
}

/// The distance between two numbers.
pub open spec fn distance(x: nat, y: nat) -> nat {
    if x >= y {
        (x - y) as nat
    } else {
        (y - x) as nat
    }
}

/// What step `i` of the search finds: the greatest common divisor of `n`
/// and the distance between the sequence at step `i` and at its checkpoint.
pub open spec fn rho_gcd(n: nat, seed: nat, i: nat) -> nat {
    greatest_common_divisor(
        distance(rho_orbit(n, seed, i), rho_orbit(n, seed, checkpoint(i))),
        n,
    )
}

/// Step `i` is the first at which the search finds more than 1.
pub open spec fn is_first_hit(n: nat, seed: nat, i: nat) -> bool {
    &&& i >= 1
    &&& rho_gcd(n, seed, i) > 1
    &&& forall|j: nat| 1 <= j < i ==> #[trigger] rho_gcd(n, seed, j) == 1
}

/// The first step at which the search finds more than 1.
pub open spec fn rho_first_hit(n: nat, seed: nat) -> nat {
    choose|i: nat| is_first_hit(n, seed, i)
}

/// How the search from `seed` ends: with the proper factor found at the
/// first hit, or with nothing when the first hit finds `n` itself.
pub open spec fn rho_outcome(n: nat, seed: nat) -> Option<nat> {
    let found = rho_gcd(n, seed, rho_first_hit(n, seed));
    if found == n {
        None
    } else {
        Some(found)
    }
}

/// `seed` is the first seed from 2 upwards, below `n`, from which the
/// search ends with a factor.
pub open spec fn is_first_fruitful_seed(n: nat, seed: nat) -> bool {
    &&& 2 <= seed < n
    &&& rho_outcome(n, seed) is Some
    &&& forall|s: nat| 2 <= s < seed ==> #[trigger] rho_outcome(n, s) is None
}

/// After its first step the sequence stays below `n`.
pub proof fn lemma_orbit_bound(n: nat, seed: nat, i: nat)
    requires
        n > 0,
        i >= 1,
    ensures
        rho_orbit(n, seed, i) < n,
{
    let x = rho_orbit(n, seed, (i - 1) as nat);
    lemma_mod_bound((x * x + 1) as int, n as int);
}

/// The steps from `2^k` to `2^(k+1) - 1` share the checkpoint `2^k - 1`.
pub proof fn lemma_checkpoint(k: nat, i: nat)
    requires
        pow(2, k) <= i < pow(2, k + 1),
    ensures
        checkpoint(i) == pow(2, k) - 1,
    decreases k,
{
    reveal(pow);
    if k == 0 {
        assert(pow(2, 1) == 2 * pow(2, 0));
    } else {
        let j = (k - 1) as nat;
        assert(pow(2, k) == 2 * pow(2, j));
        assert(pow(2, k + 1) == 2 * pow(2, k));
        lemma_pow_positive(2, j);
        lemma_checkpoint(j, i / 2);
    }
}

/// A sequence that holds the same value at two steps goes on alike from
/// both.
pub proof fn lemma_orbit_repeats(n: nat, seed: nat, s: nat, t: nat, u: nat)
    requires
        rho_orbit(n, seed, s) == rho_orbit(n, seed, t),
    ensures
        rho_orbit(n, seed, s + u) == rho_orbit(n, seed, t + u),
    decreases u,
{
    if u > 0 {
        lemma_orbit_repeats(n, seed, s, t, (u - 1) as nat);
    }
}

/// Pigeonhole on the sequence: among its steps 1 to `n + 1` two hold the
/// same value. Returns two such steps.
pub proof fn lemma_orbit_collides(n: nat, seed: nat) -> (st: (nat, nat))
    requires
        n > 0,
    ensures
        1 <= st.0 < st.1 <= n + 1,
        rho_orbit(n, seed, st.0) == rho_orbit(n, seed, st.1),
{
    let q = Seq::new(n + 1, |i: int| rho_orbit(n, seed, (i + 1) as nat) + 1);
    assert(within_one_to(q, n)) by {
        assert forall|i: int| 0 <= i < q.len() implies 1 <= #[trigger] q[i] <= n by {
            lemma_orbit_bound(n, seed, (i + 1) as nat);
        }
    }
    if q.no_duplicates() {
        lemma_distinct_bounded_len(q, n);
    }
    let (i, j) = choose|i: int, j: int|
        0 <= i < q.len() && 0 <= j < q.len() && i != j && q[i] == q[j];
    if i < j {
        ((i + 1) as nat, (j + 1) as nat)
    } else {
        ((j + 1) as nat, (i + 1) as nat)
    }
}

/// The search never goes on for ever: within the batch that begins after
/// `2^128 - 1` steps, if not before, the sequence comes back to its
/// checkpoint, and that step finds `n`.
pub proof fn lemma_search_ends(n: nat, seed: nat) -> (i: nat)
    requires
        2 <= n <= u128::MAX,
    ensures
        1 <= i <= 2 * u128::MAX,
        rho_gcd(n, seed, i) > 1,
{
    let (s, t) = lemma_orbit_collides(n, seed);
    let period = (t - s) as nat;
    let start: nat = u128::MAX as nat;
    let i = start + period;
    lemma_two_pow_128();
    assert(pow(2, 129) == 2 * pow(2, 128)) by {
        reveal(pow);
    }
    lemma_checkpoint(128, i);
    lemma_orbit_repeats(n, seed, s, t, (start - s) as nat);
    assert(s + (start - s) as nat == start);
    assert(t + (start - s) as nat == i);
    assert(distance(rho_orbit(n, seed, i), rho_orbit(n, seed, start)) == 0);
    lemma_gcd_is_greatest_common_divisor(0, n);
    assert(greatest_common_divisor(0, n) == n) by {
        reveal_with_fuel(greatest_common_divisor, 2);
        lemma_small_mod(0, n);
    }
    i
}

/// Below a step that finds more than 1 there is a first such step.
proof fn lemma_least_hit(n: nat, seed: nat, i: nat) -> (first: nat)
    requires
        n >= 1,
        i >= 1,
        rho_gcd(n, seed, i) > 1,
    ensures
        first <= i,
        is_first_hit(n, seed, first),
    decreases i,
{
    if exists|j: nat| 1 <= j < i && #[trigger] rho_gcd(n, seed, j) != 1 {
        let j = choose|j: nat| 1 <= j < i && #[trigger] rho_gcd(n, seed, j) != 1;
        lemma_gcd_is_greatest_common_divisor(
            distance(rho_orbit(n, seed, j), rho_orbit(n, seed, checkpoint(j))),
            n,
        );
        lemma_least_hit(n, seed, j)
    } else {
        i
    }
}

/// Every search has a first hit, so that `rho_outcome` says how it ends.
pub proof fn lemma_first_hit_exists(n: nat, seed: nat)
    requires
        2 <= n <= u128::MAX,
    ensures
        is_first_hit(n, seed, rho_first_hit(n, seed)),
        rho_first_hit(n, seed) <= 2 * u128::MAX,
{
    let i = lemma_search_ends(n, seed);
    let first = lemma_least_hit(n, seed, i);
    lemma_first_hit_unique(n, seed, first);
}

/// There is one first hit and no other.
pub proof fn lemma_first_hit_unique(n: nat, seed: nat, i: nat)
    requires
        is_first_hit(n, seed, i),
    ensures
        rho_first_hit(n, seed) == i,
{
    let j = rho_first_hit(n, seed);
    assert(is_first_hit(n, seed, j));
    if j < i {
        assert(rho_gcd(n, seed, j) == 1);
    } else if i < j {
        assert(rho_gcd(n, seed, i) == 1);
    }
}

/// Searches for a proper factor of `n` along the sequence that starts at
/// `seed`. Returns the factor found at the first hit; `None` when the first
/// hit finds `n` itself, so that the search from this seed has failed.
pub fn pollard_rho_once(n: u128, seed: u128) -> (res: Option<u128>)
    requires
        n >= 2,
    ensures
        match res {
            Some(factor) => rho_outcome(n as nat, seed as nat) == Some(factor as nat),
            None => rho_outcome(n as nat, seed as nat) == None::<nat>,
        },
        res matches Some(factor) ==> 1 < factor < n && divides(factor as nat, n as nat),
{
    let mut x: u128 = seed;
    let mut batch: u128 = 1;
    let ghost mut k: nat = 0;
    proof {
        lemma_pow0(2);
    }
    loop
        invariant
            n >= 2,
            k <= 128,
            k <= 127 ==> batch == pow(2, k),
            k == 128 ==> batch == u128::MAX,
            x == rho_orbit(n as nat, seed as nat, (pow(2, k) - 1) as nat),
            forall|i: nat| 1 <= i < pow(2, k) ==> #[trigger] rho_gcd(n as nat, seed as nat, i) == 1,
        decreases 129 - k,
    {
        // The batch of 2^k steps begins; `y` is its checkpoint.
        let y: u128 = x;
        let ghost start: nat = (pow(2, k) - 1) as nat;
        proof {
            lemma_batch_size(k);
        }
        let mut j: u128 = 0;
        while j < batch
            invariant
                n >= 2,
                k <= 128,
                j <= batch <= pow(2, k),
                start == pow(2, k) - 1,
                pow(2, k + 1) == 2 * pow(2, k),
                y == rho_orbit(n as nat, seed as nat, start),
                x == rho_orbit(n as nat, seed as nat, start + j as nat),
                forall|i: nat|
                    1 <= i <= start + j ==> #[trigger] rho_gcd(n as nat, seed as nat, i) == 1,
            decreases batch - j,
        {
            let ghost i: nat = start + j as nat + 1;
            let square: u128 = mul_mod(x, x, n);
            proof {
                lemma_add_mod_noop(x * x, 1, n as int);
                lemma_small_mod(1, n as nat);
                lemma_checkpoint(k, i);
            }
            x = (square + 1) % n;
            let d: u128 = if x >= y {
                x - y
            } else {
                y - x
            };
            let factor: u128 = gcd(d, n);
            if factor > 1 {
                proof {
                    lemma_first_hit_unique(n as nat, seed as nat, i);
                    lemma_divisor_at_most(factor as nat, n as nat);
                }
                return if factor != n {
                    Some(factor)
                } else {
                    None
                };
            }
            j = j + 1;
        }
        proof {
            if k == 128 {
                // The last batch cannot come to its end without a hit.
                let hit = lemma_search_ends(n as nat, seed as nat);
                assert(rho_gcd(n as nat, seed as nat, hit) == 1);
            }
            k = k + 1;
        }
        // The batches double for as long as 128 bits hold their size. The
        // one after that is cut short by a single step, which is never
        // missed: the sequence has come back to its checkpoint before.
        batch = if batch <= u128::MAX / 2 {
            batch * 2
        } else {
            u128::MAX
        };
    }
}

/// The sizes of the batches: `2^k` doubles with `k`, stays within 128 bits
/// up to `k == 127`, and is more than half of `u128::MAX` only there.
proof fn lemma_batch_size(k: nat)
    ensures
        pow(2, k) >= 1,
        pow(2, k + 1) == 2 * pow(2, k),
        k <= 126 ==> pow(2, k) <= u128::MAX / 4 + 1,
        k == 127 ==> pow(2, k) == u128::MAX / 2 + 1,
        k == 128 ==> pow(2, k) == u128::MAX + 1,
{
    lemma_pow_positive(2, k);
    assert(pow(2, k + 1) == 2 * pow(2, k)) by {
        reveal(pow);
    }
    lemma_two_pow_128();
    lemma_pow_adds(2, 127, 1);
    lemma_pow_adds(2, 126, 1);
    lemma_pow1(2);
    if k <= 126 {
        lemma_pow_increases(2, k, 126);
    }
}

/// Finds a proper factor of the composite number `n`.
///
/// The search is made from the seeds 2, 3, ... in turn, and the factor is
/// that of the first seed from which the search ends with one. Should no
/// seed below `n` give a factor, the smallest divisor of `n` above 1 is
/// returned instead.
pub fn pollard_rho(n: u128) -> (factor: u128)
    requires
        composite(n as nat),
    ensures
        1 < factor < n,
        divides(factor as nat, n as nat),
        forall|seed: nat|
            is_first_fruitful_seed(n as nat, seed) ==> rho_outcome(n as nat, seed) == Some(
                factor as nat,
            ),
        (forall|seed: nat| 2 <= seed < n ==> #[trigger] rho_outcome(n as nat, seed) is None)
            ==> is_smallest_divisor(factor as nat, n as nat),
{
    let mut seed: u128 = 2;
    while seed < n
        invariant
            2 <= seed,
            composite(n as nat),
            forall|s: nat| 2 <= s < seed && s < n ==> #[trigger] rho_outcome(n as nat, s) is None,
        decreases n - seed,
    {
        if let Some(factor) = pollard_rho_once(n, seed) {
            proof {
                assert forall|s: nat| is_first_fruitful_seed(n as nat, s) implies rho_outcome(
                    n as nat,
                    s,
                ) == Some(factor as nat) by {
                    if s < seed {
                        assert(rho_outcome(n as nat, s) is None);
                    } else if seed < s {
                        assert(rho_outcome(n as nat, seed as nat) is None);
                    }
                }
            }
            return factor;
        }
        seed = seed + 1;
    }
    let factor: u128 = smallest_divisor(n);
    proof {
        if factor == n {
            let d = choose|d: nat| 1 < d < n && #[trigger] divides(d, n as nat);
            assert(!divides(d, n as nat));
        }
        assert forall|s: nat| is_first_fruitful_seed(n as nat, s) implies rho_outcome(n as nat, s)
            == Some(factor as nat) by {
            assert(rho_outcome(n as nat, s) is None);
        }
    }
    factor
}

} // verus!
