//! The tensor product of two GLWE ciphertexts.

use crate::glwe::{lemma_polynomial_len, GlweCiphertext, GlweSpec};
use crate::polynomial::{negacyclic_coefficient, negacyclic_product_coefficient, two_to_128, two_to_64, wrapping_sum};
use vstd::prelude::*;

verus! {

/// The value modulo `2^128`, divided by `scale` rounding down, and cut to 64
/// bits.
pub open spec fn scale_down(value: int, scale: u64) -> u64 {
    (((value % two_to_128()) / (scale as int)) % two_to_64()) as u64
}

/// The product of `a` and `b` modulo `X^N + 1`, scaled down.
pub open spec fn scaled_product(a: Seq<u64>, b: Seq<u64>, scale: u64) -> Seq<u64> {
    Seq::new(a.len(), |d: int| scale_down(negacyclic_coefficient(a, b, d), scale))
}

/// The sum of the products of `a` with `b` and of `c` with `d`, modulo
/// `X^N + 1`, scaled down.
pub open spec fn scaled_product_sum(a: Seq<u64>, b: Seq<u64>, c: Seq<u64>, d: Seq<u64>, scale: u64) -> Seq<u64> {
    Seq::new(
        a.len(),
        |k: int| scale_down(negacyclic_coefficient(a, b, k) + negacyclic_coefficient(c, d, k), scale),
    )
}

/// The polynomial that goes with the product of key polynomials `i` and `j`.
pub open spec fn tensor_cross(lhs: GlweSpec, rhs: GlweSpec, scale: u64, i: int, j: int) -> Seq<u64> {
    scaled_product_sum(lhs.polynomial(i), rhs.polynomial(j), lhs.polynomial(j), rhs.polynomial(i), scale)
}

/// The polynomial that goes with the square of key polynomial `i`.
pub open spec fn tensor_square(lhs: GlweSpec, rhs: GlweSpec, scale: u64, i: int) -> Seq<u64> {
    scaled_product(lhs.polynomial(i), rhs.polynomial(i), scale)
}

/// The polynomial that goes with key polynomial `i` itself.
pub open spec fn tensor_linear(lhs: GlweSpec, rhs: GlweSpec, scale: u64, i: int) -> Seq<u64> {
    scaled_product_sum(lhs.polynomial(i), rhs.body(), lhs.body(), rhs.polynomial(i), scale)
}

/// The body of the tensor product.
pub open spec fn tensor_body(lhs: GlweSpec, rhs: GlweSpec, scale: u64) -> Seq<u64> {
    scaled_product(lhs.body(), rhs.body(), scale)
}

/// The cross polynomials of `i` with `0` up to `j - 1`, in this order.
pub open spec fn tensor_crosses(lhs: GlweSpec, rhs: GlweSpec, scale: u64, i: int, j: int) -> Seq<u64>
    decreases j,
{
    if j <= 0 {
        Seq::empty()
    } else {
        tensor_crosses(lhs, rhs, scale, i, j - 1) + tensor_cross(lhs, rhs, scale, i, j - 1)
    }
}

/// All that mask polynomial `i` gives rise to: its cross polynomials with the
/// earlier ones, then its square, then its linear polynomial.
pub open spec fn tensor_row(lhs: GlweSpec, rhs: GlweSpec, scale: u64, i: int) -> Seq<u64> {
    tensor_crosses(lhs, rhs, scale, i, i) + tensor_square(lhs, rhs, scale, i) + tensor_linear(lhs, rhs, scale, i)
}

/// The rows of the first `i` mask polynomials.
pub open spec fn tensor_mask(lhs: GlweSpec, rhs: GlweSpec, scale: u64, i: int) -> Seq<u64>
    decreases i,
{
    if i <= 0 {
        Seq::empty()
    } else {
        tensor_mask(lhs, rhs, scale, i - 1) + tensor_row(lhs, rhs, scale, i - 1)
    }
}

/// The number of mask polynomials of a tensor product of ciphertexts with
/// `k` mask polynomials: `k` squares, `k` linear ones, and one for every pair.
pub open spec fn tensor_glwe_dimension(k: int) -> int {
    k * (k + 3) / 2
}

proof fn lemma_tensor_crosses_len(lhs: GlweSpec, rhs: GlweSpec, scale: u64, i: int, j: int)
    requires
        0 <= j,
        lhs.wf(),
        0 <= i < lhs.spec_glwe_size(),
    ensures
        tensor_crosses(lhs, rhs, scale, i, j).len() == j * lhs.polynomial_size,
    decreases j,
{
    if j > 0 {
        lemma_tensor_crosses_len(lhs, rhs, scale, i, j - 1);
        lemma_polynomial_len(lhs, i);
        assert((j - 1) * lhs.polynomial_size + lhs.polynomial_size == j * lhs.polynomial_size) by (nonlinear_arith);
    } else {
        assert(0 * lhs.polynomial_size == 0) by (nonlinear_arith);
    }
}

proof fn lemma_tensor_mask_len(lhs: GlweSpec, rhs: GlweSpec, scale: u64, i: int)
    requires
        lhs.wf(),
        0 <= i <= lhs.glwe_dimension(),
    ensures
        tensor_mask(lhs, rhs, scale, i).len() == tensor_glwe_dimension(i) * lhs.polynomial_size,
    decreases i,
{
    let n = lhs.polynomial_size as int;
    if i > 0 {
        lemma_tensor_mask_len(lhs, rhs, scale, i - 1);
        lemma_tensor_crosses_len(lhs, rhs, scale, i - 1, i - 1);
        lemma_polynomial_len(lhs, i - 1);
        let before = tensor_glwe_dimension(i - 1);
        let now = tensor_glwe_dimension(i);
        assert(now == before + (i - 1) + 2) by {
            assert((i - 1) * (i - 1 + 3) + 2 * (i + 1) == i * (i + 3)) by (nonlinear_arith);
        }
        assert(before * n + (i - 1) * n + n + n == now * n) by (nonlinear_arith)
            requires
                now == before + (i - 1) + 2,
        ;
    } else {
        assert(tensor_glwe_dimension(0) * n == 0) by (nonlinear_arith);
    }
}

/// The coefficients of the tensor product: the rows of all mask polynomials,
/// then the body.
pub open spec fn tensor_data(lhs: GlweSpec, rhs: GlweSpec, scale: u64) -> Seq<u64> {
    tensor_mask(lhs, rhs, scale, lhs.glwe_dimension()) + tensor_body(lhs, rhs, scale)
}

/// Divides by the scale and keeps the low 64 bits.
fn scale_coefficient(value: u128, scale: u64, Ghost(exact): Ghost<int>) -> (r: u64)
    requires
        scale != 0,
        value as int == exact % two_to_128(),
    ensures
        r == scale_down(exact, scale),
{
    let quotient: u128 = value / (scale as u128);
    let low: u64 = (quotient & 0xffff_ffff_ffff_ffff) as u64;
    proof {
        assert(quotient & 0xffff_ffff_ffff_ffff == quotient % 0x1_0000_0000_0000_0000) by (bit_vector);
    }
    low
}

/// Appends the scaled product of two polynomials, given by where they start.
fn push_scaled_product(
    out: &mut Vec<u64>,
    a: &Vec<u64>,
    a_start: usize,
    b: &Vec<u64>,
    b_start: usize,
    n: usize,
    scale: u64,
)
    requires
        scale != 0,
        a_start + n <= a@.len(),
        b_start + n <= b@.len(),
    ensures
        final(out)@ == old(out)@ + scaled_product(
            a@.subrange(a_start as int, a_start + n),
            b@.subrange(b_start as int, b_start + n),
            scale,
        ),
{
    let ghost pa = a@.subrange(a_start as int, a_start + n);
    let ghost pb = b@.subrange(b_start as int, b_start + n);
    let mut d: usize = 0;
    while d < n
        invariant
            d <= n,
            scale != 0,
            a_start + n <= a@.len(),
            b_start + n <= b@.len(),
            pa == a@.subrange(a_start as int, a_start + n),
            pb == b@.subrange(b_start as int, b_start + n),
            out@ == old(out)@ + scaled_product(pa, pb, scale).take(d as int),
        decreases n - d,
    {
        let value = negacyclic_product_coefficient(a, a_start, b, b_start, n, d);
        let coefficient = scale_coefficient(value, scale, Ghost(negacyclic_coefficient(pa, pb, d as int)));
        out.push(coefficient);
        proof {
            let expected = scaled_product(pa, pb, scale);
            assert(expected.take(d + 1) =~= expected.take(d as int).push(expected[d as int]));
            assert(out@ =~= old(out)@ + expected.take(d + 1));
        }
        d += 1;
    }
    proof {
        let expected = scaled_product(pa, pb, scale);
        assert(expected.take(n as int) =~= expected);
    }
}

/// Appends the scaled sum of two products of polynomials.
fn push_scaled_product_sum(
    out: &mut Vec<u64>,
    a: &Vec<u64>,
    a_start: usize,
    b: &Vec<u64>,
    b_start: usize,
    c_start: usize,
    d_start: usize,
    n: usize,
    scale: u64,
)
    requires
        scale != 0,
        a_start + n <= a@.len(),
        c_start + n <= a@.len(),
        b_start + n <= b@.len(),
        d_start + n <= b@.len(),
    ensures
        final(out)@ == old(out)@ + scaled_product_sum(
            a@.subrange(a_start as int, a_start + n),
            b@.subrange(b_start as int, b_start + n),
            a@.subrange(c_start as int, c_start + n),
            b@.subrange(d_start as int, d_start + n),
            scale,
        ),
{
    let ghost pa = a@.subrange(a_start as int, a_start + n);
    let ghost pb = b@.subrange(b_start as int, b_start + n);
    let ghost pc = a@.subrange(c_start as int, c_start + n);
    let ghost pd = b@.subrange(d_start as int, d_start + n);
    let mut k: usize = 0;
    while k < n
        invariant
            k <= n,
            scale != 0,
            a_start + n <= a@.len(),
            c_start + n <= a@.len(),
            b_start + n <= b@.len(),
            d_start + n <= b@.len(),
            pa == a@.subrange(a_start as int, a_start + n),
            pb == b@.subrange(b_start as int, b_start + n),
            pc == a@.subrange(c_start as int, c_start + n),
            pd == b@.subrange(d_start as int, d_start + n),
            out@ == old(out)@ + scaled_product_sum(pa, pb, pc, pd, scale).take(k as int),
        decreases n - k,
    {
        let first = negacyclic_product_coefficient(a, a_start, b, b_start, n, k);
        let second = negacyclic_product_coefficient(a, c_start, b, d_start, n, k);
        let ghost exact_first = negacyclic_coefficient(pa, pb, k as int);
        let ghost exact_second = negacyclic_coefficient(pc, pd, k as int);
        let value = wrapping_sum(first, second, Ghost(exact_first), Ghost(exact_second));
        let coefficient = scale_coefficient(value, scale, Ghost(exact_first + exact_second));
        out.push(coefficient);
        proof {
            let expected = scaled_product_sum(pa, pb, pc, pd, scale);
            assert(expected.take(k + 1) =~= expected.take(k as int).push(expected[k as int]));
            assert(out@ =~= old(out)@ + expected.take(k + 1));
        }
        k += 1;
    }
    proof {
        let expected = scaled_product_sum(pa, pb, pc, pd, scale);
        assert(expected.take(n as int) =~= expected);
    }
}

/// Compute the tensor product of the left-hand side GLWE ciphertext with the
/// right-hand side GLWE ciphertext.
///
/// The result is a ciphertext under the key made of the pairwise products,
/// the squares and the polynomials of the input key.  Every product of two
/// polynomials is taken modulo `X^N + 1` in wrapping 128-bit arithmetic and
/// divided by `scale`, rounding down.
pub fn glwe_tensor_product(
    input_glwe_ciphertext_lhs: &GlweCiphertext,
    input_glwe_ciphertext_rhs: &GlweCiphertext,
    scale: u64,
) -> (output: GlweCiphertext)
    requires
        input_glwe_ciphertext_lhs.wf(),
        input_glwe_ciphertext_rhs.wf(),
        input_glwe_ciphertext_lhs.polynomial_size == input_glwe_ciphertext_rhs.polynomial_size,
        input_glwe_ciphertext_lhs.spec_glwe_size() == input_glwe_ciphertext_rhs.spec_glwe_size(),
        input_glwe_ciphertext_lhs.ciphertext_modulus == input_glwe_ciphertext_rhs.ciphertext_modulus,
        scale != 0,
    ensures
        output.wf(),
        output.polynomial_size == input_glwe_ciphertext_lhs.polynomial_size,
        output.ciphertext_modulus == input_glwe_ciphertext_lhs.ciphertext_modulus,
        output.glwe_dimension() == tensor_glwe_dimension(input_glwe_ciphertext_lhs.glwe_dimension()),
        output.data@ == tensor_data(input_glwe_ciphertext_lhs@, input_glwe_ciphertext_rhs@, scale),
{
    let lhs = input_glwe_ciphertext_lhs;
    let rhs = input_glwe_ciphertext_rhs;
    let n = lhs.polynomial_size;
    let size = lhs.glwe_size();
    let data_len = lhs.data.len();
    let k = size - 1;
    proof {
        lemma_polynomial_len(lhs@, k as int);
        lemma_polynomial_len(rhs@, k as int);
    }
    let body_start = k * n;
    let mut data: Vec<u64> = Vec::new();
    let mut i: usize = 0;
    while i < k
        invariant
            i <= k,
            k == lhs.glwe_dimension(),
            k == rhs.glwe_dimension(),
            n == lhs.polynomial_size,
            n == rhs.polynomial_size,
            lhs.wf(),
            rhs.wf(),
            scale != 0,
            body_start == k * n,
            body_start + n == lhs.data@.len(),
            data_len == lhs.data@.len(),
            lhs.data@.len() == rhs.data@.len(),
            data@ == tensor_mask(lhs@, rhs@, scale, i as int),
        decreases k - i,
    {
        proof {
            lemma_polynomial_len(lhs@, i as int);
            lemma_polynomial_len(rhs@, i as int);
        }
        let row_start = i * n;
        let ghost mask_before = data@;
        let mut j: usize = 0;
        while j < i
            invariant
                j <= i,
                i < k,
                k == lhs.glwe_dimension(),
                k == rhs.glwe_dimension(),
                n == lhs.polynomial_size,
                n == rhs.polynomial_size,
                lhs.wf(),
                rhs.wf(),
                scale != 0,
                row_start == i * n,
                row_start + n <= lhs.data@.len(),
                data_len == lhs.data@.len(),
                lhs.data@.len() == rhs.data@.len(),
                data@ == mask_before + tensor_crosses(lhs@, rhs@, scale, i as int, j as int),
            decreases i - j,
        {
            proof {
                lemma_polynomial_len(lhs@, j as int);
                lemma_polynomial_len(rhs@, j as int);
                lemma_polynomial_len(lhs@, i as int);
                lemma_polynomial_len(rhs@, i as int);
            }
            let other_start = j * n;
            let ghost before = data@;
            push_scaled_product_sum(&mut data, &lhs.data, row_start, &rhs.data, other_start, other_start, row_start, n, scale);
            proof {
                assert(lhs.data@.subrange(row_start as int, row_start + n) == lhs.polynomial(i as int));
                assert(rhs.data@.subrange(row_start as int, row_start + n) == rhs.polynomial(i as int));
                assert(lhs.data@.subrange(other_start as int, other_start + n) == lhs.polynomial(j as int));
                assert(rhs.data@.subrange(other_start as int, other_start + n) == rhs.polynomial(j as int));
                assert(data@ =~= mask_before + tensor_crosses(lhs@, rhs@, scale, i as int, j + 1));
            }
            j += 1;
        }
        push_scaled_product(&mut data, &lhs.data, row_start, &rhs.data, row_start, n, scale);
        push_scaled_product_sum(&mut data, &lhs.data, row_start, &rhs.data, body_start, body_start, row_start, n, scale);
        proof {
            lemma_polynomial_len(lhs@, k as int);
            lemma_polynomial_len(rhs@, k as int);
            assert(lhs.data@.subrange(row_start as int, row_start + n) == lhs.polynomial(i as int));
            assert(rhs.data@.subrange(row_start as int, row_start + n) == rhs.polynomial(i as int));
            assert(lhs.data@.subrange(body_start as int, body_start + n) == lhs.body());
            assert(rhs.data@.subrange(body_start as int, body_start + n) == rhs.body());
            assert(data@ =~= mask_before + tensor_row(lhs@, rhs@, scale, i as int));
        }
        i += 1;
    }
    push_scaled_product(&mut data, &lhs.data, body_start, &rhs.data, body_start, n, scale);
    proof {
        assert(lhs.data@.subrange(body_start as int, body_start + n) == lhs.body());
        assert(rhs.data@.subrange(body_start as int, body_start + n) == rhs.body());
    }
    let output = GlweCiphertext { data, polynomial_size: n, ciphertext_modulus: lhs.ciphertext_modulus };
    proof {
        lemma_tensor_mask_len(lhs@, rhs@, scale, k as int);
        let new_k = tensor_glwe_dimension(k as int);
        assert(new_k >= 0) by (nonlinear_arith)
            requires
                new_k == k * (k + 3) / 2,
                k >= 0,
        ;
        assert(output.data@.len() == (new_k + 1) * n) by (nonlinear_arith)
            requires
                output.data@.len() == new_k * n + n,
        ;
        vstd::arithmetic::div_mod::lemma_fundamental_div_mod_converse(
            output.data@.len() as int,
            n as int,
            new_k + 1,
            0,
        );
        assert(output.data@.len() >= n) by (nonlinear_arith)
            requires
                output.data@.len() == (new_k + 1) * n,
                new_k >= 0,
                n >= 1,
        ;
    }
    output
}

} // verus!
