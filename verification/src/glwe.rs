//! GLWE ciphertexts.

use crate::ciphertext::CiphertextModulus;
use vstd::prelude::*;

verus! {

/// A GLWE ciphertext: mask polynomials followed by the body polynomial, each
/// of `polynomial_size` coefficients.
pub struct GlweCiphertext {
    pub data: Vec<u64>,
    pub polynomial_size: usize,
    pub ciphertext_modulus: CiphertextModulus,
}

/// What a GLWE ciphertext is, apart from where its coefficients are kept.
pub struct GlweSpec {
    pub data: Seq<u64>,
    pub polynomial_size: usize,
    pub ciphertext_modulus: CiphertextModulus,
}

impl View for GlweCiphertext {
    type V = GlweSpec;

    open spec fn view(&self) -> GlweSpec {
        GlweSpec {
            data: self.data@,
            polynomial_size: self.polynomial_size,
            ciphertext_modulus: self.ciphertext_modulus,
        }
    }
}

/// Polynomial `index` of `n` coefficients in `data`.
pub open spec fn polynomial_at(data: Seq<u64>, n: int, index: int) -> Seq<u64> {
    data.subrange(index * n, (index + 1) * n)
}

impl GlweSpec {
    /// The coefficients split into at least one polynomial.
    pub open spec fn wf(self) -> bool {
        &&& self.polynomial_size >= 1
        &&& self.data.len() >= self.polynomial_size
        &&& self.data.len() % (self.polynomial_size as nat) == 0
    }

    /// The number of polynomials, body included.
    pub open spec fn spec_glwe_size(self) -> int {
        self.data.len() as int / self.polynomial_size as int
    }

    /// The number of mask polynomials.
    pub open spec fn glwe_dimension(self) -> int {
        self.spec_glwe_size() - 1
    }

    /// Polynomial `index` of the ciphertext.
    pub open spec fn polynomial(self, index: int) -> Seq<u64> {
        polynomial_at(self.data, self.polynomial_size as int, index)
    }

    /// The body polynomial.
    pub open spec fn body(self) -> Seq<u64> {
        self.polynomial(self.glwe_dimension())
    }
}

impl GlweCiphertext {
    /// The coefficients split into at least one polynomial.
    pub open spec fn wf(&self) -> bool {
        self@.wf()
    }

    /// The number of polynomials, body included.
    pub open spec fn spec_glwe_size(&self) -> int {
        self@.spec_glwe_size()
    }

    /// The number of mask polynomials.
    pub open spec fn glwe_dimension(&self) -> int {
        self@.glwe_dimension()
    }

    /// Polynomial `index` of the ciphertext.
    pub open spec fn polynomial(&self, index: int) -> Seq<u64> {
        self@.polynomial(index)
    }

    /// The body polynomial.
    pub open spec fn body(&self) -> Seq<u64> {
        self@.body()
    }

    /// The number of polynomials, body included.
    pub fn glwe_size(&self) -> (r: usize)
        requires
            self.wf(),
        ensures
            r == self.spec_glwe_size(),
            r >= 1,
            r * self.polynomial_size == self.data@.len(),
    {
        proof {
            vstd::arithmetic::div_mod::lemma_fundamental_div_mod(
                self.data@.len() as int,
                self.polynomial_size as int,
            );
            let q = self.data@.len() as int / self.polynomial_size as int;
            assert(q >= 1) by (nonlinear_arith)
                requires
                    self.polynomial_size * q == self.data@.len(),
                    self.data@.len() >= self.polynomial_size,
                    self.polynomial_size >= 1,
            ;
            assert(q * self.polynomial_size == self.polynomial_size * q) by (nonlinear_arith);
        }
        self.data.len() / self.polynomial_size
    }
}

impl Clone for GlweCiphertext {
    fn clone(&self) -> (r: Self)
        ensures
            r@ == self@,
    {
        let data = self.data.clone();
        proof {
            assert(data@ =~= self.data@);
        }
        GlweCiphertext { data, polynomial_size: self.polynomial_size, ciphertext_modulus: self.ciphertext_modulus }
    }
}

/// Every polynomial of a sound ciphertext lies inside its data.
pub proof fn lemma_polynomial_len(ct: GlweSpec, i: int)
    requires
        ct.wf(),
        0 <= i < ct.spec_glwe_size(),
    ensures
        0 <= i * ct.polynomial_size,
        (i + 1) * ct.polynomial_size == i * ct.polynomial_size + ct.polynomial_size,
        (i + 1) * ct.polynomial_size <= ct.data.len(),
        ct.polynomial(i).len() == ct.polynomial_size,
        ct.spec_glwe_size() * ct.polynomial_size == ct.data.len(),
{
    let n = ct.polynomial_size as int;
    let size = ct.spec_glwe_size();
    vstd::arithmetic::div_mod::lemma_fundamental_div_mod(ct.data.len() as int, n);
    assert(size * n == n * size) by (nonlinear_arith);
    assert(0 <= i * n && (i + 1) * n == i * n + n && (i + 1) * n <= size * n) by (nonlinear_arith)
        requires
            0 <= i < size,
            n >= 1,
    ;
}

} // verus!
