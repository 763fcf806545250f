//! Bringing the tensor product of two GLWE ciphertexts back under the key of
//! its factors.

use crate::ciphertext::CiphertextModulus;
use crate::decomposition::SignedDecomposer;
use crate::glwe::{lemma_polynomial_len, polynomial_at, GlweCiphertext};
use crate::glwe_tensor_product::{glwe_tensor_product, tensor_data, tensor_glwe_dimension};
use crate::polynomial::{negacyclic_coefficient, negacyclic_product_coefficient, two_to_128, two_to_64};
use vstd::arithmetic::div_mod::{lemma_mod_twice, lemma_small_mod, lemma_sub_mod_noop};
use vstd::prelude::*;

verus! {

/// A relinearisation key: for every product of two polynomials of a GLWE
/// key, the second not later than the first, and for every decomposition
/// level, a GLWE ciphertext under that key.
pub struct GlweRelinearisationKey {
    pub data: Vec<u64>,
    pub glwe_size: usize,
    pub polynomial_size: usize,
    pub decomp_base_log: usize,
    pub decomp_level_count: usize,
    pub ciphertext_modulus: CiphertextModulus,
}

/// What a relinearisation key is, apart from where its coefficients are
/// kept.
pub struct GlweRelinearisationKeySpec {
    pub data: Seq<u64>,
    pub glwe_size: usize,
    pub polynomial_size: usize,
    pub decomp_base_log: usize,
    pub decomp_level_count: usize,
    pub ciphertext_modulus: CiphertextModulus,
}

impl View for GlweRelinearisationKey {
    type V = GlweRelinearisationKeySpec;

    open spec fn view(&self) -> GlweRelinearisationKeySpec {
        GlweRelinearisationKeySpec {
            data: self.data@,
            glwe_size: self.glwe_size,
            polynomial_size: self.polynomial_size,
            decomp_base_log: self.decomp_base_log,
            decomp_level_count: self.decomp_level_count,
            ciphertext_modulus: self.ciphertext_modulus,
        }
    }
}

/// The number of products of two out of `k` polynomials, the second not
/// later than the first.
pub open spec fn pair_count(k: int) -> int {
    k * (k + 1) / 2
}

/// The first of the two polynomials of product `t`, when the products are
/// counted row by row: `(0, 0)`, `(1, 0)`, `(1, 1)`, `(2, 0)` and so on.
pub open spec fn pair_row(t: int) -> int
    decreases t,
{
    if t <= 0 {
        0
    } else {
        let before = pair_row(t - 1);
        if pair_count(before + 1) == t {
            before + 1
        } else {
            before
        }
    }
}

/// Where the polynomial that goes with product `t` stands in the mask of a
/// tensor product: every row of products is followed by one linear
/// polynomial.
pub open spec fn pair_polynomial(t: int) -> int {
    t + pair_row(t)
}

/// Where the linear polynomial of mask polynomial `p` stands in the mask of
/// a tensor product: behind the products of row `p`.
pub open spec fn linear_polynomial(p: int) -> int {
    pair_count(p + 1) + p
}

impl GlweRelinearisationKeySpec {
    /// The number of mask polynomials of the key.
    pub open spec fn glwe_dimension(self) -> int {
        self.glwe_size - 1
    }

    /// The decomposer that goes with the key.
    pub open spec fn decomposer(self) -> SignedDecomposer {
        SignedDecomposer { base_log: self.decomp_base_log, level_count: self.decomp_level_count }
    }

    /// The key holds one ciphertext for every product and level, and its
    /// decomposer is sound.
    pub open spec fn wf(self) -> bool {
        &&& self.glwe_size >= 1
        &&& self.polynomial_size >= 1
        &&& self.decomposer().wf()
        &&& self.data.len() == pair_count(self.glwe_dimension()) * self.decomp_level_count * self.glwe_size * self.polynomial_size
    }

    /// Polynomial `p` of the ciphertext that is kept for product `t` at
    /// place `level`.
    pub open spec fn polynomial(self, t: int, level: int, p: int) -> Seq<u64> {
        polynomial_at(
            self.data,
            self.polynomial_size as int,
            (t * self.decomp_level_count + level) * self.glwe_size + p,
        )
    }

    /// The digits of step `step` of all coefficients of `polynomial`.
    pub open spec fn digits(self, polynomial: Seq<u64>, step: int) -> Seq<u64> {
        Seq::new(polynomial.len(), |c: int| self.decomposer().spec_decompose(polynomial[c])[step])
    }

    /// What the first `steps` digits of the polynomial that goes with product
    /// `t` take from coefficient `d` of polynomial `p` of the output.  The
    /// digit found first meets the ciphertext kept last.
    pub open spec fn digits_share(self, input: Seq<u64>, t: int, p: int, d: int, steps: nat) -> int
        decreases steps,
    {
        if steps == 0 {
            0
        } else {
            self.digits_share(input, t, p, d, (steps - 1) as nat) + negacyclic_coefficient(
                self.polynomial(t, self.decomp_level_count - steps, p),
                self.digits(polynomial_at(input, self.polynomial_size as int, pair_polynomial(t)), steps - 1),
                d,
            )
        }
    }

    /// What the first `count` products take from coefficient `d` of
    /// polynomial `p` of the output.
    pub open spec fn products_share(self, input: Seq<u64>, p: int, d: int, count: nat) -> int
        decreases count,
    {
        if count == 0 {
            0
        } else {
            self.products_share(input, p, d, (count - 1) as nat) + self.digits_share(
                input,
                count - 1,
                p,
                d,
                self.decomp_level_count as nat,
            )
        }
    }

    /// What the tensor product gives to polynomial `p` of the output as it
    /// is: its body to the body, the linear polynomial of `p` to mask
    /// polynomial `p`.
    pub open spec fn kept(self, input: Seq<u64>, p: int) -> Seq<u64> {
        let n = self.polynomial_size as int;
        if p == self.glwe_dimension() {
            polynomial_at(input, n, tensor_glwe_dimension(self.glwe_dimension()))
        } else {
            polynomial_at(input, n, linear_polynomial(p))
        }
    }

    /// The tensor product `input` under the key of its factors: what is
    /// kept, less the products of the digits of the polynomials that go with
    /// products of key polynomials with the ciphertexts of the key.
    pub open spec fn relinearised(self, input: Seq<u64>) -> Seq<u64> {
        let n = self.polynomial_size as int;
        Seq::new(
            (self.glwe_size * self.polynomial_size) as nat,
            |at: int|
                ((self.kept(input, at / n)[at % n] - self.products_share(
                    input,
                    at / n,
                    at % n,
                    pair_count(self.glwe_dimension()) as nat,
                )) % two_to_64()) as u64,
        )
    }
}

/// Product `t` lies in row `pair_row(t)`.
pub proof fn lemma_pair_row(t: int)
    requires
        t >= 0,
    ensures
        0 <= pair_row(t) <= t,
        pair_count(pair_row(t)) <= t < pair_count(pair_row(t) + 1),
    decreases t,
{
    if t > 0 {
        lemma_pair_row(t - 1);
        let before = pair_row(t - 1);
        lemma_pair_count_step(before);
        lemma_pair_count_step(before + 1);
    } else {
        lemma_pair_count_step(0);
    }
}

/// A row more has one product more than the row has polynomials.
pub proof fn lemma_pair_count_step(k: int)
    requires
        k >= 0,
    ensures
        pair_count(0) == 0,
        pair_count(k) >= 0,
        pair_count(k + 1) == pair_count(k) + k + 1,
{
    assert((k + 1) * (k + 2) == k * (k + 1) + 2 * (k + 1)) by (nonlinear_arith);
    assert(k * (k + 1) >= 0) by (nonlinear_arith)
        requires
            k >= 0,
    ;
}

/// The rows are told apart by where they begin.
pub proof fn lemma_pair_row_unique(t: int, row: int)
    requires
        0 <= row,
        pair_count(row) <= t < pair_count(row + 1),
    ensures
        pair_row(t) == row,
{
    lemma_pair_count_step(row);
    lemma_pair_row(t);
    let found = pair_row(t);
    if found < row {
        lemma_pair_count_monotone(found + 1, row);
    } else if found > row {
        lemma_pair_count_monotone(row + 1, found);
    }
}

/// Later rows begin later.
pub proof fn lemma_pair_count_monotone(a: int, b: int)
    requires
        0 <= a <= b,
    ensures
        pair_count(a) <= pair_count(b),
    decreases b - a,
{
    if a < b {
        lemma_pair_count_monotone(a, b - 1);
        lemma_pair_count_step(b - 1);
    }
}

/// The digits of all coefficients of the polynomial of `n` coefficients that
/// starts at `start` in `data`, one polynomial of digits for every step.
fn decompose_polynomial(decomposer: &SignedDecomposer, data: &Vec<u64>, start: usize, n: usize) -> (digits: Vec<Vec<u64>>)
    requires
        decomposer.wf(),
        start + n <= data@.len(),
    ensures
        digits@.len() == decomposer.level_count,
        forall|step: int| 0 <= step < decomposer.level_count ==> (#[trigger] digits@[step])@ == Seq::new(
            n as nat,
            |c: int| decomposer.spec_decompose(data@[start + c])[step],
        ),
{
    let data_len = data.len();
    let levels = decomposer.level_count;
    let mut by_coefficient: Vec<Vec<u64>> = Vec::new();
    let mut c: usize = 0;
    while c < n
        invariant
            c <= n,
            decomposer.wf(),
            start + n <= data@.len(),
            data_len == data@.len(),
            by_coefficient@.len() == c,
            forall|b: int| 0 <= b < c ==> (#[trigger] by_coefficient@[b])@ == decomposer.spec_decompose(data@[start + b]),
        decreases n - c,
    {
        by_coefficient.push(decomposer.decompose(data[start + c]));
        c += 1;
    }
    let mut digits: Vec<Vec<u64>> = Vec::new();
    let mut step: usize = 0;
    while step < levels
        invariant
            step <= levels,
            levels == decomposer.level_count,
            by_coefficient@.len() == n,
            forall|b: int| 0 <= b < n ==> (#[trigger] by_coefficient@[b])@ == decomposer.spec_decompose(data@[start + b]),
            digits@.len() == step,
            forall|s: int| 0 <= s < step ==> (#[trigger] digits@[s])@ == Seq::new(
                n as nat,
                |c: int| decomposer.spec_decompose(data@[start + c])[s],
            ),
        decreases levels - step,
    {
        let mut polynomial: Vec<u64> = Vec::new();
        let mut c: usize = 0;
        while c < n
            invariant
                c <= n,
                step < levels,
                levels == decomposer.level_count,
                by_coefficient@.len() == n,
                forall|b: int| 0 <= b < n ==> (#[trigger] by_coefficient@[b])@ == decomposer.spec_decompose(data@[start + b]),
                polynomial@.len() == c,
                forall|b: int| 0 <= b < c ==> #[trigger] polynomial@[b] == decomposer.spec_decompose(data@[start + b])[step as int],
            decreases n - c,
        {
            let terms = &by_coefficient[c];
            assert(terms@ == decomposer.spec_decompose(data@[start + c]));
            polynomial.push(terms[step]);
            c += 1;
        }
        proof {
            assert(polynomial@ =~= Seq::new(n as nat, |c: int| decomposer.spec_decompose(data@[start + c])[step as int]));
        }
        digits.push(polynomial);
        step += 1;
    }
    digits
}

/// The place of a polynomial of the key lies inside its data.
proof fn lemma_key_polynomial(key: GlweRelinearisationKeySpec, t: int, level: int, p: int)
    requires
        key.wf(),
        0 <= t < pair_count(key.glwe_dimension()),
        0 <= level < key.decomp_level_count,
        0 <= p < key.glwe_size,
    ensures
        0 <= t * key.decomp_level_count,
        0 <= (t * key.decomp_level_count + level) * key.glwe_size,
        0 <= ((t * key.decomp_level_count + level) * key.glwe_size + p) * key.polynomial_size,
        t * key.decomp_level_count + level <= ((t * key.decomp_level_count + level) * key.glwe_size + p) * key.polynomial_size + key.polynomial_size,
        (t * key.decomp_level_count + level) * key.glwe_size + p <= ((t * key.decomp_level_count + level) * key.glwe_size + p) * key.polynomial_size + key.polynomial_size,
        ((t * key.decomp_level_count + level) * key.glwe_size + p) * key.polynomial_size + key.polynomial_size <= key.data.len(),
        ((t * key.decomp_level_count + level) * key.glwe_size + p + 1) * key.polynomial_size == ((t * key.decomp_level_count + level) * key.glwe_size + p) * key.polynomial_size + key.polynomial_size,
{
    let pairs = pair_count(key.glwe_dimension());
    let levels = key.decomp_level_count as int;
    let size = key.glwe_size as int;
    let n = key.polynomial_size as int;
    assert(0 <= t * levels && t * levels + level + 1 <= pairs * levels) by (nonlinear_arith)
        requires
            0 <= t < pairs,
            0 <= level < levels,
    ;
    let row = t * levels + level;
    assert(0 <= row * size && row * size + p + 1 <= (pairs * levels) * size && row <= row * size) by (nonlinear_arith)
        requires
            0 <= row,
            row + 1 <= pairs * levels,
            0 <= p < size,
    ;
    let place = row * size + p;
    assert(0 <= place * n && (place + 1) * n == place * n + n && (place + 1) * n <= ((pairs * levels) * size) * n && place <= place * n) by (nonlinear_arith)
        requires
            0 <= place,
            place + 1 <= (pairs * levels) * size,
            n >= 1,
    ;
    assert(((pairs * levels) * size) * n == pairs * levels * size * n) by (nonlinear_arith);
}

/// The low 64 bits of a coefficient that is known modulo `2^128`.
fn low_half(value: u128, Ghost(exact): Ghost<int>) -> (r: u64)
    requires
        value as int == exact % two_to_128(),
    ensures
        r as int == exact % two_to_64(),
{
    let low: u128 = value & 0xffff_ffff_ffff_ffff;
    proof {
        assert(value & 0xffff_ffff_ffff_ffff == value % 0x1_0000_0000_0000_0000) by (bit_vector);
        assert(two_to_128() == two_to_64() * two_to_64()) by (nonlinear_arith);
        vstd::arithmetic::div_mod::lemma_mod_mod(exact, two_to_64(), two_to_64());
    }
    low as u64
}

/// Relinearise the GLWE ciphertext that is output by the tensor product,
/// using a relinearisation key for the key of the factors.
///
/// The output takes the body of the tensor product and the polynomials that
/// go with the key polynomials themselves; the polynomials that go with
/// products of two key polynomials are decomposed into digits, and the
/// products of the digits with the ciphertexts of the key are taken off.
pub fn glwe_relinearisation(
    input_glwe_ciphertext: &GlweCiphertext,
    relinearisation_key: &GlweRelinearisationKey,
    output_glwe_ciphertext: &mut GlweCiphertext,
)
    requires
        input_glwe_ciphertext.wf(),
        relinearisation_key@.wf(),
        tensor_glwe_dimension(relinearisation_key@.glwe_dimension()) == input_glwe_ciphertext.glwe_dimension(),
        old(output_glwe_ciphertext).wf(),
        relinearisation_key.glwe_size == old(output_glwe_ciphertext).spec_glwe_size(),
        relinearisation_key.polynomial_size == input_glwe_ciphertext.polynomial_size,
        relinearisation_key.polynomial_size == old(output_glwe_ciphertext).polynomial_size,
    ensures
        final(output_glwe_ciphertext).data@ == relinearisation_key@.relinearised(input_glwe_ciphertext.data@),
        final(output_glwe_ciphertext).data@.len() == old(output_glwe_ciphertext).data@.len(),
        final(output_glwe_ciphertext).polynomial_size == old(output_glwe_ciphertext).polynomial_size,
        final(output_glwe_ciphertext).ciphertext_modulus == old(output_glwe_ciphertext).ciphertext_modulus,
        final(output_glwe_ciphertext).wf(),
{
    let key = relinearisation_key;
    let input = input_glwe_ciphertext;
    let n = key.polynomial_size;
    let size = key.glwe_size;
    let k = size - 1;
    let levels = key.decomp_level_count;
    let key_len = key.data.len();
    let input_len = input.data.len();
    let input_size = input.glwe_size();
    let output_size = output_glwe_ciphertext.glwe_size();
    let output_len = output_glwe_ciphertext.data.len();
    let decomposer = SignedDecomposer::new(key.decomp_base_log, key.decomp_level_count);
    // The digits of the polynomials that go with products of key polynomials.
    let mut digits: Vec<Vec<Vec<u64>>> = Vec::new();
    let mut i: usize = 0;
    proof {
        lemma_pair_count_step(0);
    }
    while i < k
        invariant
            i <= k,
            k == key@.glwe_dimension(),
            n == key.polynomial_size,
            n == input.polynomial_size,
            levels == key.decomp_level_count,
            input.wf(),
            key@.wf(),
            decomposer == key@.decomposer(),
            input_len == input.data@.len(),
            input.glwe_dimension() == tensor_glwe_dimension(k as int),
            digits@.len() == pair_count(i as int),
            forall|t: int| 0 <= t < digits@.len() ==> (#[trigger] digits@[t])@.len() == levels,
            forall|t: int, step: int| 0 <= t < digits@.len() && 0 <= step < levels ==> (#[trigger] digits@[t]@[step])@.len() == n,
            forall|t: int, step: int| 0 <= t < digits@.len() && 0 <= step < levels ==> (#[trigger] digits@[t]@[step])@ == key@.digits(
                polynomial_at(input.data@, n as int, pair_polynomial(t)),
                step,
            ),
        decreases k - i,
    {
        let mut j: usize = 0;
        proof {
            lemma_pair_count_step(i as int);
        }
        while j <= i
            invariant
                j <= i + 1,
                i < k,
                k == key@.glwe_dimension(),
                n == key.polynomial_size,
                n == input.polynomial_size,
                levels == key.decomp_level_count,
                input.wf(),
                key@.wf(),
                decomposer == key@.decomposer(),
                input_len == input.data@.len(),
                input.glwe_dimension() == tensor_glwe_dimension(k as int),
                pair_count(i as int) >= 0,
                pair_count(i + 1) == pair_count(i as int) + i + 1,
                digits@.len() == pair_count(i as int) + j,
                forall|t: int| 0 <= t < digits@.len() ==> (#[trigger] digits@[t])@.len() == levels,
                forall|t: int, step: int| 0 <= t < digits@.len() && 0 <= step < levels ==> (#[trigger] digits@[t]@[step])@.len() == n,
                forall|t: int, step: int| 0 <= t < digits@.len() && 0 <= step < levels ==> (#[trigger] digits@[t]@[step])@ == key@.digits(
                    polynomial_at(input.data@, n as int, pair_polynomial(t)),
                    step,
                ),
            decreases i + 1 - j,
        {
            let t = digits.len();
            proof {
                lemma_pair_row_unique(t as int, i as int);
                lemma_tensor_place(i as int, j as int, k as int);
                lemma_polynomial_len(input@, t as int + i as int);
            }
            let place = t + i;
            let start = place * n;
            let found = decompose_polynomial(&decomposer, &input.data, start, n);
            proof {
                let polynomial = polynomial_at(input.data@, n as int, pair_polynomial(t as int));
                assert forall|step: int| 0 <= step < levels implies (#[trigger] found@[step])@ == key@.digits(polynomial, step) && found@[step]@.len() == n by {
                    assert(found@[step]@ =~= key@.digits(polynomial, step));
                }
            }
            digits.push(found);
            j += 1;
        }
        i += 1;
    }
    let pairs = digits.len();
    let mut data: Vec<u64> = Vec::new();
    let mut p: usize = 0;
    // Where the linear polynomial of mask polynomial `p` stands.
    let mut linear_place: usize = 1;
    let ghost expected = key@.relinearised(input.data@);
    proof {
        lemma_kept_place(0, k as int);
        lemma_pair_count_step(0);
        lemma_pair_count_step(1);
    }
    while p < size
        invariant
            p <= size,
            input_size == input.spec_glwe_size(),
            input_size >= 1,
            p < k ==> linear_place == linear_polynomial(p as int),
            size == key.glwe_size,
            k == size - 1,
            n == key.polynomial_size,
            n == input.polynomial_size,
            levels == key.decomp_level_count,
            input.wf(),
            key@.wf(),
            key_len == key.data@.len(),
            input_len == input.data@.len(),
            input.glwe_dimension() == tensor_glwe_dimension(k as int),
            pairs == pair_count(k as int),
            digits@.len() == pairs,
            forall|t: int| 0 <= t < digits@.len() ==> (#[trigger] digits@[t])@.len() == levels,
            forall|t: int, step: int| 0 <= t < digits@.len() && 0 <= step < levels ==> (#[trigger] digits@[t]@[step])@.len() == n,
            forall|t: int, step: int| 0 <= t < digits@.len() && 0 <= step < levels ==> (#[trigger] digits@[t]@[step])@ == key@.digits(
                polynomial_at(input.data@, n as int, pair_polynomial(t)),
                step,
            ),
            expected == key@.relinearised(input.data@),
            data@.len() == p * n,
            forall|at: int| 0 <= at < data@.len() ==> #[trigger] data@[at] == expected[at],
        decreases size - p,
    {
        proof {
            lemma_kept_place(p as int, k as int);
            lemma_polynomial_len(
                input@,
                if p == k {
                    tensor_glwe_dimension(k as int)
                } else {
                    linear_polynomial(p as int)
                },
            );
            lemma_pair_count_step(p as int);
        }
        let kept_place: usize = if p == k {
            input_size - 1
        } else {
            linear_place
        };
        let kept_start = kept_place * n;
        proof {
            assert(input.data@.subrange(kept_start as int, kept_start + n) == key@.kept(input.data@, p as int));
        }
        let mut d: usize = 0;
        while d < n
            invariant
                d <= n,
                p < size,
                size == key.glwe_size,
                k == size - 1,
                n == key.polynomial_size,
                n == input.polynomial_size,
                levels == key.decomp_level_count,
                input.wf(),
                key@.wf(),
                key_len == key.data@.len(),
                input_len == input.data@.len(),
                pairs == pair_count(k as int),
                digits@.len() == pairs,
                forall|t: int| 0 <= t < digits@.len() ==> (#[trigger] digits@[t])@.len() == levels,
                forall|t: int, step: int| 0 <= t < digits@.len() && 0 <= step < levels ==> (#[trigger] digits@[t]@[step])@.len() == n,
                forall|t: int, step: int| 0 <= t < digits@.len() && 0 <= step < levels ==> (#[trigger] digits@[t]@[step])@ == key@.digits(
                    polynomial_at(input.data@, n as int, pair_polynomial(t)),
                    step,
                ),
                kept_start + n <= input_len,
                input.data@.subrange(kept_start as int, kept_start + n) == key@.kept(input.data@, p as int),
                expected == key@.relinearised(input.data@),
                data@.len() == p * n + d,
                forall|at: int| 0 <= at < data@.len() ==> #[trigger] data@[at] == expected[at],
            decreases n - d,
        {
            let mut acc: u64 = input.data[kept_start + d];
            let ghost kept = key@.kept(input.data@, p as int)[d as int] as int;
            proof {
                assert(input.data@.subrange(kept_start as int, kept_start + n)[d as int] == input.data@[kept_start + d]);
                lemma_small_mod(acc as nat, two_to_64() as nat);
            }
            let mut t: usize = 0;
            while t < pairs
                invariant
                    t <= pairs,
                    d < n,
                    p < size,
                    size == key.glwe_size,
                    n == key.polynomial_size,
                    levels == key.decomp_level_count,
                    key@.wf(),
                    key_len == key.data@.len(),
                    pairs == pair_count(key@.glwe_dimension()),
                    digits@.len() == pairs,
                    forall|u: int| 0 <= u < digits@.len() ==> (#[trigger] digits@[u])@.len() == levels,
                    forall|u: int, step: int| 0 <= u < digits@.len() && 0 <= step < levels ==> (#[trigger] digits@[u]@[step])@.len() == n,
                    forall|u: int, step: int| 0 <= u < digits@.len() && 0 <= step < levels ==> (#[trigger] digits@[u]@[step])@ == key@.digits(
                        polynomial_at(input.data@, n as int, pair_polynomial(u)),
                        step,
                    ),
                    acc as int == (kept - key@.products_share(input.data@, p as int, d as int, t as nat)) % two_to_64(),
                decreases pairs - t,
            {
                let mut step: usize = 0;
                while step < levels
                    invariant
                        step <= levels,
                        t < pairs,
                        d < n,
                        p < size,
                        size == key.glwe_size,
                        n == key.polynomial_size,
                        levels == key.decomp_level_count,
                        key@.wf(),
                        key_len == key.data@.len(),
                        pairs == pair_count(key@.glwe_dimension()),
                        digits@.len() == pairs,
                        forall|u: int| 0 <= u < digits@.len() ==> (#[trigger] digits@[u])@.len() == levels,
                        forall|u: int, s: int| 0 <= u < digits@.len() && 0 <= s < levels ==> (#[trigger] digits@[u]@[s])@.len() == n,
                        forall|u: int, s: int| 0 <= u < digits@.len() && 0 <= s < levels ==> (#[trigger] digits@[u]@[s])@ == key@.digits(
                            polynomial_at(input.data@, n as int, pair_polynomial(u)),
                            s,
                        ),
                        acc as int == (kept - key@.products_share(input.data@, p as int, d as int, t as nat) - key@.digits_share(
                            input.data@,
                            t as int,
                            p as int,
                            d as int,
                            step as nat,
                        )) % two_to_64(),
                    decreases levels - step,
                {
                    let level = levels - 1 - step;
                    proof {
                        lemma_key_polynomial(key@, t as int, level as int, p as int);
                    }
                    let key_start = ((t * levels + level) * size + p) * n;
                    let digit_polynomial = &digits[t][step];
                    proof {
                        assert(digits@[t as int]@[step as int]@ == key@.digits(
                            polynomial_at(input.data@, n as int, pair_polynomial(t as int)),
                            step as int,
                        ));
                        assert(digit_polynomial@.len() == n);
                        assert(digit_polynomial@.subrange(0, n as int) =~= digit_polynomial@);
                        assert(key.data@.subrange(key_start as int, key_start + n) == key@.polynomial(t as int, level as int, p as int));
                    }
                    let wide = negacyclic_product_coefficient(&key.data, key_start, digit_polynomial, 0, n, d);
                    let ghost exact = negacyclic_coefficient(
                        key@.polynomial(t as int, level as int, p as int),
                        digit_polynomial@,
                        d as int,
                    );
                    let share = low_half(wide, Ghost(exact));
                    proof {
                        let so_far = kept - key@.products_share(input.data@, p as int, d as int, t as nat) - key@.digits_share(
                            input.data@,
                            t as int,
                            p as int,
                            d as int,
                            step as nat,
                        );
                        lemma_sub_mod_noop(so_far, exact, two_to_64());
                        lemma_mod_twice(so_far, two_to_64());
                        lemma_mod_twice(exact, two_to_64());
                        if acc as int - share as int >= 0 {
                            lemma_small_mod((acc - share) as nat, two_to_64() as nat);
                        } else {
                            lemma_small_mod((acc - share + two_to_64()) as nat, two_to_64() as nat);
                            vstd::arithmetic::div_mod::lemma_mod_add_multiples_vanish(acc - share, two_to_64());
                        }
                    }
                    acc = acc.wrapping_sub(share);
                    step += 1;
                }
                t += 1;
            }
            proof {
                let at = p * n + d;
                assert(at / (n as int) == p && at % (n as int) == d) by {
                    vstd::arithmetic::div_mod::lemma_fundamental_div_mod_converse(at as int, n as int, p as int, d as int);
                }
                assert(at < size * n) by (nonlinear_arith)
                    requires
                        at == p * n + d,
                        p < size,
                        d < n,
                ;
            }
            data.push(acc);
            d += 1;
        }
        proof {
            assert((p + 1) * n == p * n + n) by (nonlinear_arith);
            if p + 1 < k {
                lemma_kept_place(p + 1, k as int);
                lemma_pair_count_step(p + 1);
                lemma_pair_count_step(p + 2);
            }
        }
        if p + 1 < k {
            linear_place = linear_place + (p + 3);
        }
        p += 1;
    }
    proof {
        assert(data@ =~= expected);
        vstd::arithmetic::div_mod::lemma_fundamental_div_mod_converse(data@.len() as int, n as int, size as int, 0);
        assert(size * n >= n) by (nonlinear_arith)
            requires
                size >= 1,
                n >= 1,
        ;
    }
    output_glwe_ciphertext.data = data;
}

/// Row `i` of a tensor product of ciphertexts with `k` mask polynomials
/// holds its polynomial for the product with `j` inside the mask.
proof fn lemma_tensor_place(i: int, j: int, k: int)
    requires
        0 <= j <= i < k,
    ensures
        0 <= pair_count(i) + j + i < tensor_glwe_dimension(k),
        pair_count(i) + i == tensor_glwe_dimension(i),
{
    lemma_pair_count_step(i);
    assert(i * (i + 1) + 2 * i == i * (i + 3)) by (nonlinear_arith);
    lemma_tensor_dimension_monotone(i + 1, k);
    assert((i + 1) * (i + 4) == i * (i + 3) + 2 * (i + 2)) by (nonlinear_arith);
}

/// The tensor product of a larger key has a larger mask.
proof fn lemma_tensor_dimension_monotone(a: int, b: int)
    requires
        0 <= a <= b,
    ensures
        tensor_glwe_dimension(a) <= tensor_glwe_dimension(b),
    decreases b - a,
{
    if a < b {
        lemma_tensor_dimension_monotone(a, b - 1);
        assert(b * (b + 3) == (b - 1) * (b + 2) + 2 * (b + 1)) by (nonlinear_arith);
    }
}

/// What is kept for polynomial `p` of the output stands inside the tensor
/// product.
proof fn lemma_kept_place(p: int, k: int)
    requires
        0 <= p <= k,
    ensures
        tensor_glwe_dimension(k) >= 0,
        p < k ==> 0 <= linear_polynomial(p) < tensor_glwe_dimension(k),
        p < k ==> linear_polynomial(p) == (p + 1) * (p + 2) / 2 + p,
{
    lemma_tensor_dimension_monotone(0, k);
    if p < k {
        lemma_pair_count_step(p);
        lemma_pair_count_step(p + 1);
        lemma_tensor_dimension_monotone(p + 1, k);
        assert((p + 1) * (p + 4) == (p + 1) * (p + 2) + 2 * (p + 1)) by (nonlinear_arith);
    }
}

/// The tensor product of two GLWE ciphertexts, brought back under the key of
/// its factors.
pub fn tensor_mult_with_relin(
    input_glwe_ciphertext_lhs: &GlweCiphertext,
    input_glwe_ciphertext_rhs: &GlweCiphertext,
    scale: u64,
    relinearisation_key: &GlweRelinearisationKey,
    output_glwe_ciphertext: &mut GlweCiphertext,
)
    requires
        input_glwe_ciphertext_lhs.wf(),
        input_glwe_ciphertext_rhs.wf(),
        input_glwe_ciphertext_lhs.polynomial_size == input_glwe_ciphertext_rhs.polynomial_size,
        input_glwe_ciphertext_lhs.spec_glwe_size() == input_glwe_ciphertext_rhs.spec_glwe_size(),
        input_glwe_ciphertext_lhs.ciphertext_modulus == input_glwe_ciphertext_rhs.ciphertext_modulus,
        scale != 0,
        relinearisation_key@.wf(),
        relinearisation_key@.glwe_dimension() == input_glwe_ciphertext_lhs.glwe_dimension(),
        old(output_glwe_ciphertext).wf(),
        relinearisation_key.glwe_size == old(output_glwe_ciphertext).spec_glwe_size(),
        relinearisation_key.polynomial_size == input_glwe_ciphertext_lhs.polynomial_size,
        relinearisation_key.polynomial_size == old(output_glwe_ciphertext).polynomial_size,
    ensures
        final(output_glwe_ciphertext).data@ == relinearisation_key@.relinearised(
            tensor_data(input_glwe_ciphertext_lhs@, input_glwe_ciphertext_rhs@, scale),
        ),
        final(output_glwe_ciphertext).data@.len() == old(output_glwe_ciphertext).data@.len(),
        final(output_glwe_ciphertext).polynomial_size == old(output_glwe_ciphertext).polynomial_size,
        final(output_glwe_ciphertext).ciphertext_modulus == old(output_glwe_ciphertext).ciphertext_modulus,
        final(output_glwe_ciphertext).wf(),
{
    let tensor_output = glwe_tensor_product(input_glwe_ciphertext_lhs, input_glwe_ciphertext_rhs, scale);
    glwe_relinearisation(&tensor_output, relinearisation_key, output_glwe_ciphertext);
}

} // verus!
