//! Products of finite sequences of natural numbers, and what rearranging a
//! sequence does to its product.

use vstd::arithmetic::div_mod::*;
use vstd::arithmetic::mul::*;
use vstd::prelude::*;
use vstd::seq_lib::*;

verus! {

/// The product of the elements of `s`; 1 for the empty sequence.
pub open spec fn product(s: Seq<nat>) -> nat
    decreases s.len(),
{
    if s.len() == 0 {
        1
    } else {
        product(s.drop_last()) * s.last()
    }
}

/// The elements of a sequence of 128-bit integers, as natural numbers.
pub open spec fn as_nats(s: Seq<u128>) -> Seq<nat> {
    s.map_values(|x: u128| x as nat)
}

/// `n!`, the product of the numbers from 1 to `n`.
pub open spec fn factorial(n: nat) -> nat
    decreases n,
{
    if n == 0 {
        1
    } else {
        n * factorial((n - 1) as nat)
    }
}

/// Every element of `s` lies between 1 and `m`.
pub open spec fn within_one_to(s: Seq<nat>, m: nat) -> bool {
    forall|i: int| 0 <= i < s.len() ==> 1 <= #[trigger] s[i] <= m
}

/// Appending an element multiplies the product by it.
pub proof fn lemma_product_push(s: Seq<nat>, x: nat)
    ensures
        product(s.push(x)) == product(s) * x,
{
    assert(s.push(x).drop_last() =~= s);
}

/// The product of a concatenation is the product of the products.
pub proof fn lemma_product_concat(s: Seq<nat>, t: Seq<nat>)
    ensures
        product(s + t) == product(s) * product(t),
    decreases t.len(),
{
    if t.len() == 0 {
        assert(s + t =~= s);
        lemma_mul_basics(product(s) as int);
    } else {
        assert((s + t).drop_last() =~= s + t.drop_last());
        lemma_product_concat(s, t.drop_last());
        lemma_mul_is_associative(
            product(s) as int,
            product(t.drop_last()) as int,
            t.last() as int,
        );
    }
}

/// Taking one element out divides the product by it.
pub proof fn lemma_product_remove(s: Seq<nat>, k: int)
    requires
        0 <= k < s.len(),
    ensures
        product(s) == s[k] * product(s.remove(k)),
    decreases s.len(),
{
    if k == s.len() - 1 {
        assert(s.remove(k) =~= s.drop_last());
        lemma_mul_is_commutative(s[k] as int, product(s.remove(k)) as int);
    } else {
        assert(s.remove(k).drop_last() =~= s.drop_last().remove(k));
        lemma_product_remove(s.drop_last(), k);
        lemma_mul_is_associative(
            s[k] as int,
            product(s.drop_last().remove(k)) as int,
            s.last() as int,
        );
    }
}

/// A product of positive numbers is positive.
pub proof fn lemma_product_positive(s: Seq<nat>)
    requires
        forall|i: int| 0 <= i < s.len() ==> s[i] > 0,
    ensures
        product(s) > 0,
    decreases s.len(),
{
    if s.len() > 0 {
        lemma_product_positive(s.drop_last());
        lemma_mul_strictly_positive(product(s.drop_last()) as int, s.last() as int);
    }
}

/// Each element of a sequence of positive numbers divides the product.
pub proof fn lemma_element_divides_product(s: Seq<nat>, k: int)
    requires
        0 <= k < s.len(),
        forall|i: int| 0 <= i < s.len() ==> s[i] > 0,
    ensures
        product(s) % s[k] == 0,
        s[k] <= product(s),
{
    lemma_product_remove(s, k);
    let rest = product(s.remove(k));
    lemma_mod_multiples_basic(rest as int, s[k] as int);
    lemma_mul_is_commutative(rest as int, s[k] as int);
    lemma_product_positive(s);
    if s[k] > product(s) {
        lemma_small_mod(product(s), s[k]);
    }
}

/// Two sequences of 128-bit integers with the same elements, each as often
/// in one as in the other, have the same product.
pub proof fn lemma_product_rearranged(v: Seq<u128>, w: Seq<u128>)
    requires
        v.to_multiset() == w.to_multiset(),
    ensures
        product(as_nats(v)) == product(as_nats(w)),
    decreases v.len(),
{
    to_multiset_len(v);
    to_multiset_len(w);
    if v.len() == 0 {
        assert(as_nats(v) =~= as_nats(w));
    } else {
        let x = v.last();
        assert(v.contains(x)) by {
            assert(v[v.len() - 1] == x);
        }
        to_multiset_contains(v, x);
        to_multiset_contains(w, x);
        let k = w.index_of(x);
        to_multiset_remove(v, v.len() - 1);
        to_multiset_remove(w, k);
        assert(v.drop_last() =~= v.remove(v.len() - 1));
        lemma_product_rearranged(v.drop_last(), w.remove(k));
        assert(as_nats(w.remove(k)) =~= as_nats(w).remove(k));
        assert(as_nats(v).drop_last() =~= as_nats(v.drop_last()));
        lemma_product_remove(as_nats(w), k);
        lemma_mul_is_commutative(x as int, product(as_nats(w).remove(k)) as int);
    }
}

/// Pigeonhole: a sequence of distinct numbers between 1 and `m` has at most
/// `m` elements.
pub proof fn lemma_distinct_bounded_len(s: Seq<nat>, m: nat)
    requires
        s.no_duplicates(),
        within_one_to(s, m),
    ensures
        s.len() <= m,
    decreases m,
{
    if m == 0 {
        if s.len() > 0 {
            assert(1 <= s[0] <= m);
        }
    } else if exists|k: int| 0 <= k < s.len() && s[k] == m {
        let k = choose|k: int| 0 <= k < s.len() && s[k] == m;
        let t = s.remove(k);
        lemma_remove_distinct(s, k, m);
        lemma_distinct_bounded_len(t, (m - 1) as nat);
    } else {
        assert(within_one_to(s, (m - 1) as nat)) by {
            assert forall|i: int| 0 <= i < s.len() implies 1 <= #[trigger] s[i] <= m - 1 by {
                assert(1 <= s[i] <= m);
            }
        }
        lemma_distinct_bounded_len(s, (m - 1) as nat);
    }
}

/// Taking the largest value `m` out of a sequence of distinct numbers
/// between 1 and `m` leaves distinct numbers between 1 and `m - 1`.
proof fn lemma_remove_distinct(s: Seq<nat>, k: int, m: nat)
    requires
        s.no_duplicates(),
        within_one_to(s, m),
        0 <= k < s.len(),
        s[k] == m,
    ensures
        s.remove(k).len() == s.len() - 1,
        s.remove(k).no_duplicates(),
        within_one_to(s.remove(k), (m - 1) as nat),
{
    let t = s.remove(k);
    s.remove_ensures(k);
    assert forall|i: int, j: int| 0 <= i < t.len() && 0 <= j < t.len() && i != j implies t[i]
        != t[j] by {
        let si = if i < k { i } else { i + 1 };
        let sj = if j < k { j } else { j + 1 };
        assert(t[i] == s[si]);
        assert(t[j] == s[sj]);
    }
    assert forall|i: int| 0 <= i < t.len() implies 1 <= #[trigger] t[i] <= m - 1 by {
        let si = if i < k { i } else { i + 1 };
        assert(t[i] == s[si]);
        assert(1 <= s[si] <= m);
        assert(s[si] != s[k]);
    }
}

/// A sequence that holds `n` distinct numbers between 1 and `n` holds each
/// of them once, so its product is `n!`.
pub proof fn lemma_product_of_rearranged_range(s: Seq<nat>, n: nat)
    requires
        s.len() == n,
        s.no_duplicates(),
        within_one_to(s, n),
    ensures
        product(s) == factorial(n),
    decreases n,
{
    if n > 0 {
        if !(exists|k: int| 0 <= k < s.len() && s[k] == n) {
            assert(within_one_to(s, (n - 1) as nat)) by {
                assert forall|i: int| 0 <= i < s.len() implies 1 <= #[trigger] s[i] <= n - 1 by {
                    assert(1 <= s[i] <= n);
                }
            }
            lemma_distinct_bounded_len(s, (n - 1) as nat);
        }
        let k = choose|k: int| 0 <= k < s.len() && s[k] == n;
        lemma_remove_distinct(s, k, n);
        lemma_product_of_rearranged_range(s.remove(k), (n - 1) as nat);
        lemma_product_remove(s, k);
    }
}

} // verus!
