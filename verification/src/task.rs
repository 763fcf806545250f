//! The three messages of a run: the task handed out for a node, the task
//! after its ciphertexts were summed, and the result that comes back.

use crate::ciphertext::Ciphertext;
use crate::lut::{LookupTable, Lut, Luts};
use crate::polynomial::two_to_64;
use crate::scalar_ops::{
    coefficient_share, degree_share, is_weighted_sum, lemma_sum_of_nonnegative,
    lemma_weighted_sum_order_independent, noise_share, same_parameters, saturate, sum_of, summable,
};
use crate::server_key::ServerKey;
use crate::term_list::TermList;
use std::sync::Arc;
use vstd::arithmetic::div_mod::{lemma_add_mod_noop, lemma_mod_twice};
use vstd::prelude::*;

verus! {

/// The result for one node: its index and its ciphertext.
pub struct IndexedCt {
    pub index: usize,
    pub ct: Ciphertext,
}

/// The summed ciphertext of a node, waiting for its bootstrap.
pub struct IndexedCtAndLut {
    pub index: usize,
    pub ct: Ciphertext,
    pub lut: Lut,
}

/// The task for one node: the ciphertexts of its predecessors, each with the
/// weight of the edge it came along, and the lookup table to apply to their
/// weighted sum.
pub struct IndexedCtsAndLut {
    pub index: usize,
    pub cts_and_weights: TermList,
    pub lut: Lut,
}

/// The shares of the terms are never negative.
proof fn lemma_shares_nonnegative(terms: Seq<(u64, Arc<Ciphertext>)>)
    ensures
        sum_of(terms, degree_share()) >= 0,
        sum_of(terms, noise_share()) >= 0,
{
    assert forall|t: int| 0 <= t < terms.len() implies degree_share()(#[trigger] terms[t]) >= 0 by {
        let w = terms[t].0;
        let d = terms[t].1.degree;
        assert(w * d >= 0) by (nonlinear_arith)
            requires
                w >= 0,
                d >= 0,
        ;
    }
    assert forall|t: int| 0 <= t < terms.len() implies noise_share()(#[trigger] terms[t]) >= 0 by {
        let w = terms[t].0;
        let d = terms[t].1.noise_level;
        assert(w * d >= 0) by (nonlinear_arith)
            requires
                w >= 0,
                d >= 0,
        ;
    }
    lemma_sum_of_nonnegative(terms, degree_share());
    lemma_sum_of_nonnegative(terms, noise_share());
}

/// The product of the first term with its weight is the weighted sum of the
/// first term alone.
proof fn lemma_weighted_sum_first(product: Ciphertext, terms: Seq<(u64, Arc<Ciphertext>)>)
    requires
        summable(terms),
        product.ct.data@.len() == terms[0].1.ct.data@.len(),
        forall|k: int| 0 <= k < product.ct.data@.len() ==> #[trigger] product.ct.data@[k] as int == (terms[0].0 * terms[0].1.ct.data@[k]) % two_to_64(),
        product.ct.ciphertext_modulus == terms[0].1.ct.ciphertext_modulus,
        product.degree == saturate(terms[0].0 * terms[0].1.degree),
        product.noise_level == saturate(terms[0].0 * terms[0].1.noise_level),
        product.message_modulus == terms[0].1.message_modulus,
        product.carry_modulus == terms[0].1.carry_modulus,
        product.pbs_order == terms[0].1.pbs_order,
    ensures
        is_weighted_sum(product, terms, 1),
{
    let part = terms.take(1);
    assert(part.drop_last() =~= Seq::<(u64, Arc<Ciphertext>)>::empty());
    assert(part.last() == terms[0]);
    assert(sum_of(part.drop_last(), degree_share()) == 0);
    assert(sum_of(part.drop_last(), noise_share()) == 0);
    assert forall|k: int| 0 <= k < product.ct.data@.len() implies #[trigger] product.ct.data@[k] as int == sum_of(
        part,
        coefficient_share(k),
    ) % two_to_64() by {
        assert(sum_of(part.drop_last(), coefficient_share(k)) == 0);
    }
}

/// Adding the weighted term `n` to the weighted sum of the first `n` terms
/// gives the weighted sum of the first `n + 1`.
proof fn lemma_weighted_sum_step(before: Ciphertext, after: Ciphertext, terms: Seq<(u64, Arc<Ciphertext>)>, n: int)
    requires
        summable(terms),
        1 <= n < terms.len(),
        is_weighted_sum(before, terms, n),
        after.ct.data@.len() == before.ct.data@.len(),
        forall|k: int| 0 <= k < after.ct.data@.len() ==> #[trigger] after.ct.data@[k] as int == (before.ct.data@[k] + terms[n].0 * terms[n].1.ct.data@[k]) % two_to_64(),
        after.ct.ciphertext_modulus == before.ct.ciphertext_modulus,
        after.degree == saturate(before.degree + terms[n].0 * terms[n].1.degree),
        after.noise_level == saturate(before.noise_level + terms[n].0 * terms[n].1.noise_level),
        after.message_modulus == before.message_modulus,
        after.carry_modulus == before.carry_modulus,
        after.pbs_order == before.pbs_order,
    ensures
        is_weighted_sum(after, terms, n + 1),
{
    let part = terms.take(n);
    let longer = terms.take(n + 1);
    assert(longer.drop_last() =~= part);
    assert(longer.last() == terms[n]);
    lemma_shares_nonnegative(part);
    lemma_shares_nonnegative(longer);
    assert forall|k: int| 0 <= k < after.ct.data@.len() implies #[trigger] after.ct.data@[k] as int == sum_of(
        longer,
        coefficient_share(k),
    ) % two_to_64() by {
        let so_far = sum_of(part, coefficient_share(k));
        let share = terms[n].0 * terms[n].1.ct.data@[k];
        assert(before.ct.data@[k] as int == so_far % two_to_64());
        lemma_add_mod_noop(so_far, share, two_to_64());
        lemma_add_mod_noop(so_far % two_to_64(), share, two_to_64());
        lemma_mod_twice(so_far, two_to_64());
    }
}

impl IndexedCtsAndLut {
    /// Tells whether the ciphertexts of the task can be summed: there is
    /// one, and all have the LWE size and the ciphertext modulus of the
    /// first.
    pub fn is_summable(&self) -> (r: bool)
        ensures
            r == summable(self.cts_and_weights@),
    {
        let count = self.cts_and_weights.len();
        if count == 0 {
            return false;
        }
        let size = self.cts_and_weights.term(0).1.ct.data.len();
        let modulus = self.cts_and_weights.term(0).1.ct.ciphertext_modulus;
        let mut t: usize = 0;
        while t < count
            invariant
                count == self.cts_and_weights@.len(),
                t <= self.cts_and_weights@.len(),
                self.cts_and_weights@.len() >= 1,
                size == self.cts_and_weights@[0].1.ct.data@.len(),
                modulus == self.cts_and_weights@[0].1.ct.ciphertext_modulus,
                forall|s: int| 0 <= s < t ==> {
                    &&& (#[trigger] self.cts_and_weights@[s]).1.ct.data@.len() == size
                    &&& self.cts_and_weights@[s].1.ct.ciphertext_modulus == modulus
                },
            decreases self.cts_and_weights@.len() - t,
        {
            let ct = &self.cts_and_weights.term(t).1;
            if ct.ct.data.len() != size || ct.ct.ciphertext_modulus != modulus {
                return false;
            }
            t += 1;
        }
        true
    }

    /// The first phase of a task: the weighted sum of the ciphertexts of the
    /// predecessors, starting from the first scaled by its weight and adding
    /// the others, each scaled by its own.
    pub fn multisum(self, sks: &ServerKey) -> (r: IndexedCtAndLut)
        requires
            summable(self.cts_and_weights@),
        ensures
            r.index == self.index,
            r.lut == self.lut,
            is_weighted_sum(r.ct, self.cts_and_weights@, self.cts_and_weights@.len() as int),
    {
        let IndexedCtsAndLut { index, cts_and_weights, lut } = self;
        let count = cts_and_weights.len();
        let first_scalar: u64 = cts_and_weights.term(0).0;
        let mut multisum_result = sks.unchecked_scalar_mul(&cts_and_weights.term(0).1, first_scalar);
        proof {
            lemma_weighted_sum_first(multisum_result, cts_and_weights@);
        }
        let mut t: usize = 1;
        while t < count
            invariant
                count == cts_and_weights@.len(),
                1 <= t <= cts_and_weights@.len(),
                summable(cts_and_weights@),
                is_weighted_sum(multisum_result, cts_and_weights@, t as int),
            decreases cts_and_weights@.len() - t,
        {
            let scalar: u64 = cts_and_weights.term(t).0;
            let ghost before = multisum_result;
            sks.unchecked_add_scalar_mul_assign(&mut multisum_result, &cts_and_weights.term(t).1, scalar);
            proof {
                lemma_weighted_sum_step(before, multisum_result, cts_and_weights@, t as int);
            }
            t += 1;
        }
        IndexedCtAndLut { index, ct: multisum_result, lut }
    }
}

impl IndexedCtAndLut {
    /// The second phase of a task: the bootstrap of the summed ciphertext
    /// with the table that the task names.  The bootstrap itself is what the
    /// caller passes in; it is handed the summed ciphertext and the table.
    pub fn pbs<F: Fn(&Ciphertext, &LookupTable) -> Ciphertext>(self, luts: &Luts, bootstrap: &F) -> (r: IndexedCt)
        requires
            bootstrap.requires((&self.ct, luts.spec_get(self.lut))),
        ensures
            r.index == self.index,
            bootstrap.ensures((&self.ct, luts.spec_get(self.lut)), r.ct),
    {
        IndexedCt { ct: bootstrap(&self.ct, luts.get(self.lut)), index: self.index }
    }
}

impl IndexedCt {
    /// Pairs a ciphertext with the index of the node that it is the result
    /// for.
    pub fn new(index: usize, ct: Ciphertext) -> (r: Self)
        ensures
            r.index == index,
            r.ct == ct,
    {
        IndexedCt { index, ct }
    }
}

/// Two ciphertexts hold the same coefficients and the same bookkeeping.
pub open spec fn same_ciphertext(first: Ciphertext, second: Ciphertext) -> bool {
    &&& first.ct.data@ == second.ct.data@
    &&& first.ct.ciphertext_modulus == second.ct.ciphertext_modulus
    &&& first.degree == second.degree
    &&& first.noise_level == second.noise_level
    &&& first.message_modulus == second.message_modulus
    &&& first.carry_modulus == second.carry_modulus
    &&& first.pbs_order == second.pbs_order
}

/// The bootstrap is a function of what the ciphertext holds and of the table
/// alone: on ciphertexts that hold the same, with one table, whatever it
/// returns holds the same.
pub open spec fn is_single_valued<F: Fn(&Ciphertext, &LookupTable) -> Ciphertext>(bootstrap: F) -> bool {
    forall|first: &Ciphertext, second: &Ciphertext, table: &LookupTable, x: Ciphertext, y: Ciphertext|
        same_ciphertext(*first, *second) && #[trigger] bootstrap.ensures((first, table), x) && #[trigger] bootstrap.ensures(
            (second, table),
            y,
        ) ==> same_ciphertext(x, y)
}

/// The weighted sum of a list of terms is one: two ciphertexts that are the
/// weighted sum of the same terms hold the same.
pub proof fn lemma_weighted_sum_is_one(first: Ciphertext, second: Ciphertext, terms: Seq<(u64, Arc<Ciphertext>)>, n: int)
    requires
        is_weighted_sum(first, terms, n),
        is_weighted_sum(second, terms, n),
    ensures
        same_ciphertext(first, second),
{
    assert(first.ct.data@ =~= second.ct.data@);
}

/// The result of a task does not depend on the order in which the
/// ciphertexts of the predecessors are listed.  Where the terms of a node,
/// all of one parameter set, are summed in one order and in another, and
/// each sum is bootstrapped with the table of the node by a bootstrap that is
/// a function of its input, the two results are for the same node and hold
/// the same.
pub proof fn lemma_task_order_independent<F: Fn(&Ciphertext, &LookupTable) -> Ciphertext>(
    bootstrap: F,
    luts: Luts,
    terms: Seq<(u64, Arc<Ciphertext>)>,
    reordered: Seq<(u64, Arc<Ciphertext>)>,
    summed: IndexedCtAndLut,
    summed_reordered: IndexedCtAndLut,
    result: IndexedCt,
    result_reordered: IndexedCt,
)
    requires
        terms.to_multiset() == reordered.to_multiset(),
        summable(terms),
        same_parameters(terms),
        is_single_valued(bootstrap),
        // Both sums are what `multisum` gives for the node.
        summed.index == summed_reordered.index,
        summed.lut == summed_reordered.lut,
        is_weighted_sum(summed.ct, terms, terms.len() as int),
        is_weighted_sum(summed_reordered.ct, reordered, reordered.len() as int),
        // Both results are what `pbs` gives for the sums.
        result.index == summed.index,
        bootstrap.ensures((&summed.ct, luts.spec_get(summed.lut)), result.ct),
        result_reordered.index == summed_reordered.index,
        bootstrap.ensures((&summed_reordered.ct, luts.spec_get(summed_reordered.lut)), result_reordered.ct),
    ensures
        result.index == result_reordered.index,
        same_ciphertext(result.ct, result_reordered.ct),
{
    lemma_weighted_sum_order_independent(summed.ct, terms, reordered);
    lemma_weighted_sum_is_one(summed.ct, summed_reordered.ct, reordered, reordered.len() as int);
}

} // verus!
