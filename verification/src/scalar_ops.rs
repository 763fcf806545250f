//! Linear operations on ciphertexts: products with a clear scalar and sums
//! of such products.

use crate::ciphertext::{Ciphertext, LweCiphertext};
use crate::polynomial::two_to_64;
use crate::server_key::ServerKey;
use std::sync::Arc;
use vstd::arithmetic::div_mod::{lemma_add_mod_noop, lemma_mod_twice, lemma_small_mod};
use vstd::prelude::*;

verus! {

/// `x`, or the largest `usize` if `x` is larger.
pub open spec fn saturate(x: int) -> usize {
    if x > usize::MAX {
        usize::MAX
    } else {
        x as usize
    }
}

/// The sum of `f` over the items of `s`.
pub open spec fn sum_of<T>(s: Seq<T>, f: spec_fn(T) -> int) -> int
    decreases s.len(),
{
    if s.len() == 0 {
        0
    } else {
        sum_of(s.drop_last(), f) + f(s.last())
    }
}

/// A term's share of coefficient `k` of a weighted sum.
pub open spec fn coefficient_share(k: int) -> spec_fn((u64, Arc<Ciphertext>)) -> int {
    |term: (u64, Arc<Ciphertext>)| term.0 * term.1.ct.data@[k]
}

/// A term's share of the degree of a weighted sum.
pub open spec fn degree_share() -> spec_fn((u64, Arc<Ciphertext>)) -> int {
    |term: (u64, Arc<Ciphertext>)| term.0 * term.1.degree
}

/// A term's share of the noise level of a weighted sum.
pub open spec fn noise_share() -> spec_fn((u64, Arc<Ciphertext>)) -> int {
    |term: (u64, Arc<Ciphertext>)| term.0 * term.1.noise_level
}

/// The terms can be summed: there is one, and all have the LWE size and the
/// ciphertext modulus of the first.
pub open spec fn summable(terms: Seq<(u64, Arc<Ciphertext>)>) -> bool {
    &&& terms.len() >= 1
    &&& forall|t: int| 0 <= t < terms.len() ==> {
        &&& (#[trigger] terms[t]).1.ct.data@.len() == terms[0].1.ct.data@.len()
        &&& terms[t].1.ct.ciphertext_modulus == terms[0].1.ct.ciphertext_modulus
    }
}

/// All terms were encrypted for the same parameter set.
pub open spec fn same_parameters(terms: Seq<(u64, Arc<Ciphertext>)>) -> bool {
    forall|s: int, t: int| 0 <= s < terms.len() && 0 <= t < terms.len() ==> {
        &&& (#[trigger] terms[s]).1.message_modulus == (#[trigger] terms[t]).1.message_modulus
        &&& terms[s].1.carry_modulus == terms[t].1.carry_modulus
        &&& terms[s].1.pbs_order == terms[t].1.pbs_order
        &&& terms[s].1.ct.ciphertext_modulus == terms[t].1.ct.ciphertext_modulus
        &&& terms[s].1.ct.data@.len() == terms[t].1.ct.data@.len()
    }
}

/// `sum` is the weighted sum of the first `n` of `terms`, every ciphertext
/// multiplied by the weight that it is listed with: coefficient by
/// coefficient modulo `2^64`, with degree and noise level added up as far as
/// a `usize` goes, and with the parameters of the first term.
pub open spec fn is_weighted_sum(sum: Ciphertext, terms: Seq<(u64, Arc<Ciphertext>)>, n: int) -> bool {
    let part = terms.take(n);
    &&& sum.ct.data@.len() == terms[0].1.ct.data@.len()
    &&& forall|k: int| 0 <= k < sum.ct.data@.len() ==> #[trigger] sum.ct.data@[k] as int == sum_of(part, coefficient_share(k)) % two_to_64()
    &&& sum.ct.ciphertext_modulus == terms[0].1.ct.ciphertext_modulus
    &&& sum.degree == saturate(sum_of(part, degree_share()))
    &&& sum.noise_level == saturate(sum_of(part, noise_share()))
    &&& sum.message_modulus == terms[0].1.message_modulus
    &&& sum.carry_modulus == terms[0].1.carry_modulus
    &&& sum.pbs_order == terms[0].1.pbs_order
}

/// A sum does not depend on the order of its items.
pub proof fn lemma_sum_of_permutation<T>(a: Seq<T>, b: Seq<T>, f: spec_fn(T) -> int)
    requires
        a.to_multiset() == b.to_multiset(),
    ensures
        sum_of(a, f) == sum_of(b, f),
    decreases a.len(),
{
    broadcast use vstd::seq_lib::group_to_multiset_ensures;

    a.to_multiset_ensures();
    b.to_multiset_ensures();
    assert(a.len() == b.len());
    if a.len() > 0 {
        let x = a.last();
        assert(a.to_multiset().count(x) > 0);
        assert(b.to_multiset().contains(x));
        assert(b.contains(x));
        let j = choose|j: int| 0 <= j < b.len() && b[j] == x;
        let shorter = b.remove(j);
        assert(a.drop_last() =~= a.remove(a.len() - 1));
        assert(a.drop_last().to_multiset() =~= a.to_multiset().remove(x));
        assert(shorter.to_multiset() =~= b.to_multiset().remove(x));
        lemma_sum_of_permutation(a.drop_last(), shorter, f);
        lemma_sum_of_remove(b, j, f);
    }
}

/// Taking an item out of a sum lowers it by what the item gave.
pub proof fn lemma_sum_of_remove<T>(s: Seq<T>, j: int, f: spec_fn(T) -> int)
    requires
        0 <= j < s.len(),
    ensures
        sum_of(s, f) == sum_of(s.remove(j), f) + f(s[j]),
    decreases s.len(),
{
    if j == s.len() - 1 {
        assert(s.remove(j) =~= s.drop_last());
    } else {
        lemma_sum_of_remove(s.drop_last(), j, f);
        assert(s.remove(j).drop_last() =~= s.drop_last().remove(j));
        assert(s.remove(j).last() == s.last());
    }
}

/// A sum of numbers that are not negative is not negative.
pub proof fn lemma_sum_of_nonnegative<T>(s: Seq<T>, f: spec_fn(T) -> int)
    requires
        forall|t: int| 0 <= t < s.len() ==> f(#[trigger] s[t]) >= 0,
    ensures
        sum_of(s, f) >= 0,
    decreases s.len(),
{
    if s.len() > 0 {
        assert forall|t: int| 0 <= t < s.drop_last().len() implies f(#[trigger] s.drop_last()[t]) >= 0 by {
            assert(s.drop_last()[t] == s[t]);
        }
        lemma_sum_of_nonnegative(s.drop_last(), f);
        assert(f(s[s.len() - 1]) >= 0);
    }
}

/// The weighted sum of a task does not depend on the order in which the
/// ciphertexts of the predecessors are listed: what is the sum of the terms
/// in one order is their sum in any other, as long as all of them are
/// ciphertexts of one parameter set.
pub proof fn lemma_weighted_sum_order_independent(
    sum: Ciphertext,
    terms: Seq<(u64, Arc<Ciphertext>)>,
    reordered: Seq<(u64, Arc<Ciphertext>)>,
)
    requires
        terms.to_multiset() == reordered.to_multiset(),
        summable(terms),
        same_parameters(terms),
        is_weighted_sum(sum, terms, terms.len() as int),
    ensures
        summable(reordered),
        same_parameters(reordered),
        is_weighted_sum(sum, reordered, reordered.len() as int),
{
    broadcast use vstd::seq_lib::group_to_multiset_ensures;

    terms.to_multiset_ensures();
    reordered.to_multiset_ensures();
    assert(terms.len() == reordered.len());
    assert forall|t: int| 0 <= t < reordered.len() implies terms.contains(#[trigger] reordered[t]) by {
        assert(reordered.to_multiset().count(reordered[t]) > 0);
        assert(terms.to_multiset().contains(reordered[t]));
    }
    assert forall|s: int, t: int| 0 <= s < reordered.len() && 0 <= t < reordered.len() implies {
        &&& (#[trigger] reordered[s]).1.message_modulus == (#[trigger] reordered[t]).1.message_modulus
        &&& reordered[s].1.carry_modulus == reordered[t].1.carry_modulus
        &&& reordered[s].1.pbs_order == reordered[t].1.pbs_order
        &&& reordered[s].1.ct.ciphertext_modulus == reordered[t].1.ct.ciphertext_modulus
        &&& reordered[s].1.ct.data@.len() == reordered[t].1.ct.data@.len()
    } by {
        assert(terms.contains(reordered[s]));
        assert(terms.contains(reordered[t]));
        let i = choose|i: int| 0 <= i < terms.len() && terms[i] == reordered[s];
        let j = choose|j: int| 0 <= j < terms.len() && terms[j] == reordered[t];
        assert(terms[i].1.message_modulus == terms[j].1.message_modulus);
    }
    assert(terms.contains(reordered[0]));
    let first = choose|i: int| 0 <= i < terms.len() && terms[i] == reordered[0];
    assert(terms[first].1.message_modulus == terms[0].1.message_modulus);
    assert(terms.take(terms.len() as int) =~= terms);
    assert(reordered.take(reordered.len() as int) =~= reordered);
    lemma_sum_of_permutation(terms, reordered, degree_share());
    lemma_sum_of_permutation(terms, reordered, noise_share());
    assert forall|k: int| 0 <= k < sum.ct.data@.len() implies #[trigger] sum.ct.data@[k] as int == sum_of(
        reordered,
        coefficient_share(k),
    ) % two_to_64() by {
        lemma_sum_of_permutation(terms, reordered, coefficient_share(k));
    }
    assert forall|t: int| 0 <= t < reordered.len() implies {
        &&& (#[trigger] reordered[t]).1.ct.data@.len() == reordered[0].1.ct.data@.len()
        &&& reordered[t].1.ct.ciphertext_modulus == reordered[0].1.ct.ciphertext_modulus
    } by {
        assert(reordered[t].1.message_modulus == reordered[0].1.message_modulus);
    }
}

/// The product of a bound with a scalar as far as a `usize` goes.
pub fn saturating_scaled(bound: usize, scalar: u64) -> (r: usize)
    ensures
        r == saturate(scalar * bound),
{
    if bound == 0 || scalar == 0 {
        proof {
            assert(scalar * bound == 0) by (nonlinear_arith)
                requires
                    bound == 0 || scalar == 0,
            ;
        }
        0
    } else if scalar > usize::MAX as u64 {
        proof {
            assert(scalar * bound > usize::MAX) by (nonlinear_arith)
                requires
                    scalar > usize::MAX,
                    bound >= 1,
            ;
        }
        usize::MAX
    } else {
        let factor: usize = scalar as usize;
        proof {
            assert(bound * factor == scalar * bound) by (nonlinear_arith)
                requires
                    factor == scalar,
            ;
        }
        match bound.checked_mul(factor) {
            Some(product) => product,
            None => usize::MAX,
        }
    }
}

impl ServerKey {
    /// The product of a ciphertext with a clear scalar, whatever the degree
    /// that results.
    pub fn unchecked_scalar_mul(&self, ct: &Ciphertext, scalar: u64) -> (r: Ciphertext)
        ensures
            r.ct.data@.len() == ct.ct.data@.len(),
            forall|k: int| 0 <= k < r.ct.data@.len() ==> #[trigger] r.ct.data@[k] as int == (scalar * ct.ct.data@[k]) % two_to_64(),
            r.ct.ciphertext_modulus == ct.ct.ciphertext_modulus,
            r.degree == saturate(scalar * ct.degree),
            r.noise_level == saturate(scalar * ct.noise_level),
            r.message_modulus == ct.message_modulus,
            r.carry_modulus == ct.carry_modulus,
            r.pbs_order == ct.pbs_order,
    {
        let n = ct.ct.data.len();
        let mut data: Vec<u64> = Vec::new();
        let mut k: usize = 0;
        while k < n
            invariant
                k <= n,
                n == ct.ct.data@.len(),
                data@.len() == k,
                forall|j: int| 0 <= j < k ==> #[trigger] data@[j] as int == (scalar * ct.ct.data@[j]) % two_to_64(),
            decreases n - k,
        {
            let x: u64 = ct.ct.data[k];
            proof {
                assert(x as nat * scalar as nat == scalar * x) by (nonlinear_arith);
            }
            data.push(x.wrapping_mul(scalar));
            k += 1;
        }
        Ciphertext {
            ct: LweCiphertext { data, ciphertext_modulus: ct.ct.ciphertext_modulus },
            degree: saturating_scaled(ct.degree, scalar),
            noise_level: saturating_scaled(ct.noise_level, scalar),
            message_modulus: ct.message_modulus,
            carry_modulus: ct.carry_modulus,
            pbs_order: ct.pbs_order,
        }
    }

    /// Adds the product of `rhs` with a clear scalar to `lhs`, whatever the
    /// degree that results.
    pub fn unchecked_add_scalar_mul_assign(&self, lhs: &mut Ciphertext, rhs: &Ciphertext, scalar: u64)
        requires
            old(lhs).ct.data@.len() == rhs.ct.data@.len(),
            old(lhs).ct.ciphertext_modulus == rhs.ct.ciphertext_modulus,
        ensures
            final(lhs).ct.data@.len() == old(lhs).ct.data@.len(),
            forall|k: int| 0 <= k < final(lhs).ct.data@.len() ==> #[trigger] final(lhs).ct.data@[k] as int == (old(lhs).ct.data@[k] + scalar * rhs.ct.data@[k]) % two_to_64(),
            final(lhs).ct.ciphertext_modulus == old(lhs).ct.ciphertext_modulus,
            final(lhs).degree == saturate(old(lhs).degree + scalar * rhs.degree),
            final(lhs).noise_level == saturate(old(lhs).noise_level + scalar * rhs.noise_level),
            final(lhs).message_modulus == old(lhs).message_modulus,
            final(lhs).carry_modulus == old(lhs).carry_modulus,
            final(lhs).pbs_order == old(lhs).pbs_order,
    {
        let n = rhs.ct.data.len();
        let mut k: usize = 0;
        while k < n
            invariant
                k <= n,
                n == rhs.ct.data@.len(),
                lhs.ct.data@.len() == n,
                lhs.ct.ciphertext_modulus == old(lhs).ct.ciphertext_modulus,
                lhs.degree == old(lhs).degree,
                lhs.noise_level == old(lhs).noise_level,
                lhs.message_modulus == old(lhs).message_modulus,
                lhs.carry_modulus == old(lhs).carry_modulus,
                lhs.pbs_order == old(lhs).pbs_order,
                forall|j: int| 0 <= j < k ==> #[trigger] lhs.ct.data@[j] as int == (old(lhs).ct.data@[j] + scalar * rhs.ct.data@[j]) % two_to_64(),
                forall|j: int| k <= j < n ==> #[trigger] lhs.ct.data@[j] == old(lhs).ct.data@[j],
            decreases n - k,
        {
            let x: u64 = rhs.ct.data[k];
            let y: u64 = lhs.ct.data[k];
            let product: u64 = x.wrapping_mul(scalar);
            proof {
                assert(x as nat * scalar as nat == scalar * x) by (nonlinear_arith);
                let exact = scalar * x;
                assert(product as int == exact % two_to_64());
                lemma_small_mod(y as nat, two_to_64() as nat);
                lemma_add_mod_noop(y as int, exact, two_to_64());
                lemma_mod_twice(exact, two_to_64());
                if y + product >= two_to_64() {
                    lemma_small_mod((y + product - two_to_64()) as nat, two_to_64() as nat);
                    vstd::arithmetic::div_mod::lemma_mod_add_multiples_vanish(y + product - two_to_64(), two_to_64());
                } else {
                    lemma_small_mod((y + product) as nat, two_to_64() as nat);
                }
            }
            lhs.ct.data[k] = y.wrapping_add(product);
            k += 1;
        }
        proof {
            assert(scalar * rhs.degree >= 0 && scalar * rhs.noise_level >= 0) by (nonlinear_arith);
        }
        lhs.degree = lhs.degree.saturating_add(saturating_scaled(rhs.degree, scalar));
        lhs.noise_level = lhs.noise_level.saturating_add(saturating_scaled(rhs.noise_level, scalar));
    }
}

} // verus!
