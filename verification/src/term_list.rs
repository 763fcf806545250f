//! The short list of weighted ciphertexts that a task carries.

use crate::ciphertext::{share, Ciphertext};
use smallvec::SmallVec;
use std::sync::Arc;
use vstd::prelude::*;

verus! {

/// A list of ciphertexts, each with a weight.  Up to five terms are kept
/// without a heap allocation of their own, as tasks seldom carry more.
#[verifier::external_body]
pub struct TermList {
    inner: SmallVec<[(u64, Arc<Ciphertext>); 5]>,
}

/// The terms that a list holds, in their order.
pub uninterp spec fn term_list(list: TermList) -> Seq<(u64, Arc<Ciphertext>)>;

impl View for TermList {
    type V = Seq<(u64, Arc<Ciphertext>)>;

    open spec fn view(&self) -> Seq<(u64, Arc<Ciphertext>)> {
        term_list(*self)
    }
}

/// `SmallVec::new`: a vector that holds nothing.
#[verifier::external_body]
fn small_vec_new() -> (list: TermList)
    ensures
        term_list(list) == Seq::<(u64, Arc<Ciphertext>)>::empty(),
{
    TermList { inner: SmallVec::new() }
}

/// `SmallVec::push`: the item is appended behind those that are there.
#[verifier::external_body]
fn small_vec_push(list: &mut TermList, term: (u64, Arc<Ciphertext>))
    ensures
        term_list(*final(list)) == term_list(*old(list)).push(term),
{
    list.inner.push(term)
}

/// `SmallVec::len`: the number of items.
#[verifier::external_body]
fn small_vec_len(list: &TermList) -> (n: usize)
    ensures
        n == term_list(*list).len(),
{
    list.inner.len()
}

/// Indexing a `SmallVec` through its slice: the item at a position below
/// the length.
#[verifier::external_body]
fn small_vec_index(list: &TermList, i: usize) -> (term: &(u64, Arc<Ciphertext>))
    requires
        i < term_list(*list).len(),
    ensures
        *term == term_list(*list)[i as int],
{
    &list.inner[i]
}

impl TermList {
    /// The empty list.
    pub fn new() -> (list: Self)
        ensures
            list@ == Seq::<(u64, Arc<Ciphertext>)>::empty(),
    {
        small_vec_new()
    }

    /// Appends a term.
    pub fn push(&mut self, term: (u64, Arc<Ciphertext>))
        ensures
            final(self)@ == old(self)@.push(term),
    {
        small_vec_push(self, term)
    }

    /// The number of terms.
    pub fn len(&self) -> (n: usize)
        ensures
            n == self@.len(),
    {
        small_vec_len(self)
    }

    /// The term at position `i`.
    pub fn get(&self, i: usize) -> (term: Option<&(u64, Arc<Ciphertext>)>)
        ensures
            i < self@.len() ==> term == Some(&self@[i as int]),
            i >= self@.len() ==> term is None,
    {
        if i < small_vec_len(self) {
            Some(small_vec_index(self, i))
        } else {
            None
        }
    }

    /// The term at position `i`, which is below the length.
    pub(crate) fn term(&self, i: usize) -> (term: &(u64, Arc<Ciphertext>))
        requires
            i < self@.len(),
        ensures
            *term == self@[i as int],
    {
        small_vec_index(self, i)
    }

    /// The list of the terms of `terms`, in their order.
    pub fn from_vec(terms: Vec<(u64, Arc<Ciphertext>)>) -> (list: Self)
        ensures
            list@ == terms@,
    {
        let mut list = small_vec_new();
        let mut i: usize = 0;
        while i < terms.len()
            invariant
                i <= terms@.len(),
                list@ == terms@.take(i as int),
            decreases terms@.len() - i,
        {
            let weight: u64 = terms[i].0;
            small_vec_push(&mut list, (weight, share(&terms[i].1)));
            proof {
                assert(terms@.take(i + 1) =~= terms@.take(i as int).push(terms@[i as int]));
            }
            i += 1;
        }
        proof {
            assert(terms@.take(terms@.len() as int) =~= terms@);
        }
        list
    }

    /// The terms as a vector, in their order.
    pub fn to_vec(&self) -> (terms: Vec<(u64, Arc<Ciphertext>)>)
        ensures
            terms@ == self@,
    {
        let n = small_vec_len(self);
        let mut terms: Vec<(u64, Arc<Ciphertext>)> = Vec::new();
        let mut i: usize = 0;
        while i < n
            invariant
                i <= n,
                n == self@.len(),
                terms@ == self@.take(i as int),
            decreases n - i,
        {
            let term = small_vec_index(self, i);
            let weight: u64 = term.0;
            terms.push((weight, share(&term.1)));
            proof {
                assert(self@.take(i + 1) =~= self@.take(i as int).push(self@[i as int]));
            }
            i += 1;
        }
        proof {
            assert(self@.take(n as int) =~= self@);
        }
        terms
    }
}

} // verus!
