//! Circuits for multiplying encrypted values: a tensor product with
//! relinearisation, the sample of the result that holds the product, and the
//! bootstrap that cleans it; and the product from two squares.

use crate::ciphertext::LweCiphertext;
use crate::glwe::{lemma_polynomial_len, GlweCiphertext, GlweSpec};
use crate::glwe_tensor_product::tensor_data;
use crate::keyswitch::{keyswitch_lwe_ciphertext, pack_lwe_list_into_glwe, LweCiphertextList, LwePackingKeyswitchKey};
use crate::lut::wrapping_neg;
use crate::polynomial::two_to_64;
use crate::relinearisation::{tensor_mult_with_relin, GlweRelinearisationKey};
use crate::server_key::LweKeyswitchKey;
use vstd::arithmetic::div_mod::lemma_small_mod;
use vstd::prelude::*;

verus! {

/// The coefficient of the polynomials that the circuits read their result
/// from.
pub const EXTRACTED_MONOMIAL_DEGREE: usize = 42;

/// The LWE ciphertext of coefficient `nth` of the message of a GLWE
/// ciphertext: the body is coefficient `nth` of the body, and every mask
/// polynomial is read backwards from `nth`, negated where it comes around
/// the top.
pub open spec fn sample_extracted(glwe: GlweSpec, nth: int) -> Seq<u64> {
    let n = glwe.polynomial_size as int;
    let k = glwe.glwe_dimension();
    Seq::new(
        (k * n + 1) as nat,
        |at: int|
            if at == k * n {
                glwe.data[k * n + nth]
            } else if at % n <= nth {
                glwe.data[(at / n) * n + nth - at % n]
            } else {
                wrapping_neg(glwe.data[(at / n) * n + n + nth - at % n])
            },
    )
}

/// Extract the LWE ciphertext of coefficient `nth` of the message of a GLWE
/// ciphertext.
pub fn extract_lwe_sample_from_glwe_ciphertext(
    input_glwe: &GlweCiphertext,
    output_lwe: &mut LweCiphertext,
    nth: usize,
)
    requires
        input_glwe.wf(),
        nth < input_glwe.polynomial_size,
        old(output_lwe).data@.len() == input_glwe.glwe_dimension() * input_glwe.polynomial_size + 1,
        old(output_lwe).ciphertext_modulus == input_glwe.ciphertext_modulus,
    ensures
        final(output_lwe).data@ == sample_extracted(input_glwe@, nth as int),
        final(output_lwe).ciphertext_modulus == old(output_lwe).ciphertext_modulus,
{
    let n = input_glwe.polynomial_size;
    let size = input_glwe.glwe_size();
    let k = size - 1;
    let data_len = input_glwe.data.len();
    proof {
        lemma_polynomial_len(input_glwe@, k as int);
    }
    let mask_len = k * n;
    let ghost expected = sample_extracted(input_glwe@, nth as int);
    let mut data: Vec<u64> = Vec::new();
    let mut p: usize = 0;
    while p < k
        invariant
            p <= k,
            input_glwe.wf(),
            n == input_glwe.polynomial_size,
            k == input_glwe.glwe_dimension(),
            nth < n,
            mask_len == k * n,
            mask_len + n == data_len,
            data_len == input_glwe.data@.len(),
            expected == sample_extracted(input_glwe@, nth as int),
            data@.len() == p * n,
            forall|at: int| 0 <= at < data@.len() ==> #[trigger] data@[at] == expected[at],
        decreases k - p,
    {
        proof {
            lemma_polynomial_len(input_glwe@, p as int);
            assert(p * n + n <= k * n) by (nonlinear_arith)
                requires
                    p < k,
                    n >= 1,
            ;
        }
        let start = p * n;
        let mut c: usize = 0;
        while c < n
            invariant
                c <= n,
                p < k,
                n == input_glwe.polynomial_size,
                k == input_glwe.glwe_dimension(),
                nth < n,
                start == p * n,
                start + n <= mask_len,
                mask_len == k * n,
                mask_len + n == data_len,
                data_len == input_glwe.data@.len(),
                expected == sample_extracted(input_glwe@, nth as int),
                data@.len() == start + c,
                forall|at: int| 0 <= at < data@.len() ==> #[trigger] data@[at] == expected[at],
            decreases n - c,
        {
            proof {
                let at = start + c;
                vstd::arithmetic::div_mod::lemma_fundamental_div_mod_converse(at as int, n as int, p as int, c as int);
            }
            let coefficient: u64 = if c <= nth {
                input_glwe.data[start + (nth - c)]
            } else {
                let value: u64 = input_glwe.data[start + (n - (c - nth))];
                proof {
                    if value == 0 {
                        vstd::arithmetic::div_mod::lemma_mod_self_0(two_to_64());
                    } else {
                        lemma_small_mod((two_to_64() - value) as nat, two_to_64() as nat);
                    }
                }
                0u64.wrapping_sub(value)
            };
            data.push(coefficient);
            c += 1;
        }
        proof {
            assert((p + 1) * n == p * n + n) by (nonlinear_arith);
        }
        p += 1;
    }
    data.push(input_glwe.data[mask_len + nth]);
    proof {
        assert(data@ =~= expected);
    }
    output_lwe.data = data;
}

/// The sum of two LWE ciphertexts, coefficient by coefficient.
pub open spec fn lwe_sum(lhs: Seq<u64>, rhs: Seq<u64>) -> Seq<u64> {
    Seq::new(lhs.len(), |i: int| ((lhs[i] + rhs[i]) % two_to_64()) as u64)
}

/// The difference of two LWE ciphertexts, coefficient by coefficient.
pub open spec fn lwe_difference(lhs: Seq<u64>, rhs: Seq<u64>) -> Seq<u64> {
    Seq::new(lhs.len(), |i: int| ((lhs[i] - rhs[i]) % two_to_64()) as u64)
}

/// Add the right-hand side LWE ciphertext to the left-hand side one and
/// write the sum to the output.
pub fn lwe_ciphertext_add(output: &mut LweCiphertext, lhs: &LweCiphertext, rhs: &LweCiphertext)
    requires
        lhs.data@.len() == rhs.data@.len(),
        old(output).data@.len() == lhs.data@.len(),
        lhs.ciphertext_modulus == rhs.ciphertext_modulus,
        old(output).ciphertext_modulus == lhs.ciphertext_modulus,
    ensures
        final(output).data@ == lwe_sum(lhs.data@, rhs.data@),
        final(output).ciphertext_modulus == old(output).ciphertext_modulus,
{
    let n = lhs.data.len();
    let mut data: Vec<u64> = Vec::new();
    let mut i: usize = 0;
    while i < n
        invariant
            i <= n,
            n == lhs.data@.len(),
            n == rhs.data@.len(),
            data@.len() == i,
            forall|j: int| 0 <= j < i ==> #[trigger] data@[j] as int == (lhs.data@[j] + rhs.data@[j]) % two_to_64(),
        decreases n - i,
    {
        let x: u64 = lhs.data[i];
        let y: u64 = rhs.data[i];
        proof {
            if x + y >= two_to_64() {
                lemma_small_mod((x + y - two_to_64()) as nat, two_to_64() as nat);
                vstd::arithmetic::div_mod::lemma_mod_add_multiples_vanish(x + y - two_to_64(), two_to_64());
            } else {
                lemma_small_mod((x + y) as nat, two_to_64() as nat);
            }
        }
        data.push(x.wrapping_add(y));
        i += 1;
    }
    proof {
        assert(data@ =~= lwe_sum(lhs.data@, rhs.data@));
    }
    output.data = data;
}

/// Subtract the right-hand side LWE ciphertext from the left-hand side one
/// and write the difference to the output.
pub fn lwe_ciphertext_sub(output: &mut LweCiphertext, lhs: &LweCiphertext, rhs: &LweCiphertext)
    requires
        lhs.data@.len() == rhs.data@.len(),
        old(output).data@.len() == lhs.data@.len(),
        lhs.ciphertext_modulus == rhs.ciphertext_modulus,
        old(output).ciphertext_modulus == lhs.ciphertext_modulus,
    ensures
        final(output).data@ == lwe_difference(lhs.data@, rhs.data@),
        final(output).ciphertext_modulus == old(output).ciphertext_modulus,
{
    let n = lhs.data.len();
    let mut data: Vec<u64> = Vec::new();
    let mut i: usize = 0;
    while i < n
        invariant
            i <= n,
            n == lhs.data@.len(),
            n == rhs.data@.len(),
            data@.len() == i,
            forall|j: int| 0 <= j < i ==> #[trigger] data@[j] as int == (lhs.data@[j] - rhs.data@[j]) % two_to_64(),
        decreases n - i,
    {
        let x: u64 = lhs.data[i];
        let y: u64 = rhs.data[i];
        proof {
            if x as int - y as int >= 0 {
                lemma_small_mod((x - y) as nat, two_to_64() as nat);
            } else {
                lemma_small_mod((x - y + two_to_64()) as nat, two_to_64() as nat);
                vstd::arithmetic::div_mod::lemma_mod_add_multiples_vanish(x - y, two_to_64());
            }
        }
        data.push(x.wrapping_sub(y));
        i += 1;
    }
    proof {
        assert(data@ =~= lwe_difference(lhs.data@, rhs.data@));
    }
    output.data = data;
}

/// Add the right-hand side LWE ciphertext to the left-hand side one.
pub fn lwe_ciphertext_add_assign(lhs: &mut LweCiphertext, rhs: &LweCiphertext)
    requires
        old(lhs).data@.len() == rhs.data@.len(),
        old(lhs).ciphertext_modulus == rhs.ciphertext_modulus,
    ensures
        final(lhs).data@ == lwe_sum(old(lhs).data@, rhs.data@),
        final(lhs).ciphertext_modulus == old(lhs).ciphertext_modulus,
{
    let n = rhs.data.len();
    let mut i: usize = 0;
    while i < n
        invariant
            i <= n,
            n == rhs.data@.len(),
            lhs.data@.len() == n,
            lhs.ciphertext_modulus == old(lhs).ciphertext_modulus,
            forall|j: int| 0 <= j < i ==> #[trigger] lhs.data@[j] as int == (old(lhs).data@[j] + rhs.data@[j]) % two_to_64(),
            forall|j: int| i <= j < n ==> #[trigger] lhs.data@[j] == old(lhs).data@[j],
        decreases n - i,
    {
        let x: u64 = lhs.data[i];
        let y: u64 = rhs.data[i];
        proof {
            if x + y >= two_to_64() {
                lemma_small_mod((x + y - two_to_64()) as nat, two_to_64() as nat);
                vstd::arithmetic::div_mod::lemma_mod_add_multiples_vanish(x + y - two_to_64(), two_to_64());
            } else {
                lemma_small_mod((x + y) as nat, two_to_64() as nat);
            }
        }
        lhs.data[i] = x.wrapping_add(y);
        i += 1;
    }
    proof {
        assert(lhs.data@ =~= lwe_sum(old(lhs).data@, rhs.data@));
    }
}

/// What the circuits ask of the ciphertexts that the product of two GLWE
/// ciphertexts passes through: the relinearisation key is for the key of
/// the factors and gives `output_relin` its shape, the sample has the size
/// of `output_relin` as an LWE ciphertext, and the key switching key takes
/// the sample to `ks_result`.
pub open spec fn product_path_fits(
    factor: GlweSpec,
    relinearisation_key: GlweRelinearisationKey,
    output_relin: GlweCiphertext,
    extracted_sample: LweCiphertext,
    ksk: LweKeyswitchKey,
    ks_result: LweCiphertext,
) -> bool {
    &&& relinearisation_key@.wf()
    &&& relinearisation_key@.glwe_dimension() == factor.glwe_dimension()
    &&& relinearisation_key.polynomial_size == factor.polynomial_size
    &&& output_relin.wf()
    &&& output_relin.spec_glwe_size() == relinearisation_key.glwe_size
    &&& output_relin.polynomial_size == relinearisation_key.polynomial_size
    &&& EXTRACTED_MONOMIAL_DEGREE < output_relin.polynomial_size
    &&& extracted_sample.data@.len() == output_relin.glwe_dimension() * output_relin.polynomial_size + 1
    &&& extracted_sample.ciphertext_modulus == output_relin.ciphertext_modulus
    &&& ksk@.can_switch()
    &&& extracted_sample.data@.len() == ksk@.input_key_lwe_dimension() + 1
    &&& ks_result.data@.len() == ksk.output_lwe_size
    &&& ks_result.ciphertext_modulus == ksk.ciphertext_modulus
}

/// The product of two GLWE ciphertexts on its way to the bootstrap: the
/// tensor product is relinearised into `output_relin`, the sample of the
/// coefficient that the circuits read is extracted into `extracted_sample`,
/// and the sample is key switched into `ks_result`.
pub open spec fn is_product_path(
    lhs: GlweSpec,
    rhs: GlweSpec,
    scale: u64,
    relinearisation_key: GlweRelinearisationKey,
    output_relin: GlweCiphertext,
    extracted_sample: LweCiphertext,
    ksk: LweKeyswitchKey,
    ks_result: LweCiphertext,
) -> bool {
    &&& output_relin.data@ == relinearisation_key@.relinearised(tensor_data(lhs, rhs, scale))
    &&& extracted_sample.data@ == sample_extracted(output_relin@, EXTRACTED_MONOMIAL_DEGREE as int)
    &&& ks_result.data@ == ksk@.keyswitched(extracted_sample.data@)
}

/// The tensor product of two GLWE ciphertexts with relinearisation, the
/// sample of its result, and the key switch of the sample.
fn product_path(
    lhs: &GlweCiphertext,
    rhs: &GlweCiphertext,
    scale: u64,
    relinearisation_key: &GlweRelinearisationKey,
    output_relin: &mut GlweCiphertext,
    extracted_sample: &mut LweCiphertext,
    ksk: &LweKeyswitchKey,
    ks_result: &mut LweCiphertext,
)
    requires
        lhs.wf(),
        rhs.wf(),
        lhs.polynomial_size == rhs.polynomial_size,
        lhs.spec_glwe_size() == rhs.spec_glwe_size(),
        lhs.ciphertext_modulus == rhs.ciphertext_modulus,
        scale != 0,
        product_path_fits(lhs@, *relinearisation_key, *old(output_relin), *old(extracted_sample), *ksk, *old(ks_result)),
    ensures
        is_product_path(
            lhs@,
            rhs@,
            scale,
            *relinearisation_key,
            *final(output_relin),
            *final(extracted_sample),
            *ksk,
            *final(ks_result),
        ),
        final(output_relin).polynomial_size == old(output_relin).polynomial_size,
        final(output_relin).ciphertext_modulus == old(output_relin).ciphertext_modulus,
        final(extracted_sample).ciphertext_modulus == old(extracted_sample).ciphertext_modulus,
        final(ks_result).ciphertext_modulus == old(ks_result).ciphertext_modulus,
        final(ks_result).data@.len() == old(ks_result).data@.len(),
{
    tensor_mult_with_relin(lhs, rhs, scale, relinearisation_key, output_relin);
    extract_lwe_sample_from_glwe_ciphertext(output_relin, extracted_sample, EXTRACTED_MONOMIAL_DEGREE);
    keyswitch_lwe_ciphertext(ksk, extracted_sample, ks_result);
}

/// The bootstrap can be called on every ciphertext with every accumulator,
/// and gives ciphertexts of `size` coefficients.
pub open spec fn bootstrap_fits<F: Fn(&LweCiphertext, &GlweCiphertext) -> LweCiphertext>(
    programmable_bootstrap: F,
    size: int,
) -> bool {
    &&& forall|input: &LweCiphertext, accumulator: &GlweCiphertext| #[trigger] programmable_bootstrap.requires((input, accumulator))
    &&& forall|input: &LweCiphertext, accumulator: &GlweCiphertext, output: LweCiphertext| #[trigger] programmable_bootstrap.ensures((input, accumulator), output) ==> output.data@.len() == size
}

/// The GLWE ciphertext that packs `list` under `lwe_pksk`, in the shape of
/// `shape`.
pub open spec fn packed_as(lwe_pksk: LwePackingKeyswitchKey, list: LweCiphertextList, shape: GlweCiphertext) -> GlweSpec {
    GlweSpec {
        data: lwe_pksk.packed(list),
        polynomial_size: shape.polynomial_size,
        ciphertext_modulus: shape.ciphertext_modulus,
    }
}

/// `list` can be packed under `lwe_pksk` into a ciphertext of the shape of
/// `shape`.
pub open spec fn packing_fits(lwe_pksk: LwePackingKeyswitchKey, list: LweCiphertextList, shape: GlweCiphertext) -> bool {
    &&& lwe_pksk.wf()
    &&& list.wf()
    &&& list.lwe_size == lwe_pksk.table().input_dimension() + 1
    &&& list.count() <= lwe_pksk.output_polynomial_size
    &&& shape.wf()
    &&& shape.polynomial_size == lwe_pksk.output_polynomial_size
    &&& shape.spec_glwe_size() == lwe_pksk.output_glwe_size
}

/// Pack two lists of LWE ciphertexts into a GLWE ciphertext each, multiply
/// the two with a tensor product and a relinearisation, extract the sample
/// that the circuits read, switch its key and bootstrap it.
///
/// `output_pks` lends its shape to the first packed ciphertext and
/// `output_relin` to the second; the results of the stages are found in
/// `output_relin`, `extracted_sample`, `ks_result` and `output_pbs_ct`.
pub fn pack_lwe_list_into_glwe_tensor_mult_with_relin_pbs<F: Fn(&LweCiphertext, &GlweCiphertext) -> LweCiphertext>(
    lwe_pksk: &LwePackingKeyswitchKey,
    input_lwe_ciphertext_list1: &LweCiphertextList,
    input_lwe_ciphertext_list2: &LweCiphertextList,
    output_pks: &mut GlweCiphertext,
    scale: u64,
    relinearisation_key: &GlweRelinearisationKey,
    output_relin: &mut GlweCiphertext,
    extracted_sample: &mut LweCiphertext,
    ksk: &LweKeyswitchKey,
    ks_result: &mut LweCiphertext,
    accumulator: &GlweCiphertext,
    programmable_bootstrap: &F,
    output_pbs_ct: &mut LweCiphertext,
)
    requires
        packing_fits(*lwe_pksk, *input_lwe_ciphertext_list1, *old(output_pks)),
        packing_fits(*lwe_pksk, *input_lwe_ciphertext_list2, *old(output_relin)),
        old(output_pks).ciphertext_modulus == old(output_relin).ciphertext_modulus,
        scale != 0,
        product_path_fits(
            old(output_pks)@,
            *relinearisation_key,
            *old(output_relin),
            *old(extracted_sample),
            *ksk,
            *old(ks_result),
        ),
        forall|input: &LweCiphertext, acc: &GlweCiphertext| #[trigger] programmable_bootstrap.requires((input, acc)),
    ensures
        *final(output_pks) == *old(output_pks),
        is_product_path(
            packed_as(*lwe_pksk, *input_lwe_ciphertext_list1, *old(output_pks)),
            packed_as(*lwe_pksk, *input_lwe_ciphertext_list2, *old(output_relin)),
            scale,
            *relinearisation_key,
            *final(output_relin),
            *final(extracted_sample),
            *ksk,
            *final(ks_result),
        ),
        programmable_bootstrap.ensures((&*final(ks_result), accumulator), *final(output_pbs_ct)),
{
    let mut packed_glwe1 = output_pks.clone();
    pack_lwe_list_into_glwe(lwe_pksk, input_lwe_ciphertext_list1, &mut packed_glwe1);
    let mut packed_glwe2 = output_relin.clone();
    pack_lwe_list_into_glwe(lwe_pksk, input_lwe_ciphertext_list2, &mut packed_glwe2);
    proof {
        lemma_same_size(packed_glwe1@, old(output_pks)@);
        lemma_same_size(packed_glwe2@, old(output_relin)@);
    }
    product_path(
        &packed_glwe1,
        &packed_glwe2,
        scale,
        relinearisation_key,
        output_relin,
        extracted_sample,
        ksk,
        ks_result,
    );
    *output_pbs_ct = programmable_bootstrap(ks_result, accumulator);
}

/// Two ciphertexts of the same length and polynomial size have the same
/// number of polynomials.
proof fn lemma_same_size(a: GlweSpec, b: GlweSpec)
    requires
        a.data.len() == b.data.len(),
        a.polynomial_size == b.polynomial_size,
    ensures
        a.spec_glwe_size() == b.spec_glwe_size(),
        a.glwe_dimension() == b.glwe_dimension(),
        b.wf() ==> a.wf(),
{
}

/// Pack two lists of LWE ciphertexts into a GLWE ciphertext each, square the
/// first with a tensor product and a relinearisation, extract the sample
/// that the circuits read, switch its key, bootstrap it, and switch the key
/// of the result.
///
/// `output_pks` lends its shape to both packed ciphertexts; the second is
/// packed and then left aside.
pub fn pack_lwe_list_into_glwe_tensor_mult_with_relin_pbs_ks<F: Fn(&LweCiphertext, &GlweCiphertext) -> LweCiphertext>(
    lwe_pksk: &LwePackingKeyswitchKey,
    input_lwe_ciphertext_list1: &LweCiphertextList,
    input_lwe_ciphertext_list2: &LweCiphertextList,
    output_pks: &mut GlweCiphertext,
    scale: u64,
    relinearisation_key: &GlweRelinearisationKey,
    output_relin: &mut GlweCiphertext,
    extracted_sample: &mut LweCiphertext,
    ksk1: &LweKeyswitchKey,
    ks_result1: &mut LweCiphertext,
    accumulator: &GlweCiphertext,
    programmable_bootstrap: &F,
    output_pbs_ct: &mut LweCiphertext,
    ksk2: &LweKeyswitchKey,
    ks_result2: &mut LweCiphertext,
)
    requires
        packing_fits(*lwe_pksk, *input_lwe_ciphertext_list1, *old(output_pks)),
        packing_fits(*lwe_pksk, *input_lwe_ciphertext_list2, *old(output_pks)),
        scale != 0,
        product_path_fits(
            old(output_pks)@,
            *relinearisation_key,
            *old(output_relin),
            *old(extracted_sample),
            *ksk1,
            *old(ks_result1),
        ),
        bootstrap_fits(*programmable_bootstrap, ksk2@.input_key_lwe_dimension() + 1),
        ksk2@.can_switch(),
        old(ks_result2).data@.len() == ksk2.output_lwe_size,
        old(ks_result2).ciphertext_modulus == ksk2.ciphertext_modulus,
    ensures
        *final(output_pks) == *old(output_pks),
        is_product_path(
            packed_as(*lwe_pksk, *input_lwe_ciphertext_list1, *old(output_pks)),
            packed_as(*lwe_pksk, *input_lwe_ciphertext_list1, *old(output_pks)),
            scale,
            *relinearisation_key,
            *final(output_relin),
            *final(extracted_sample),
            *ksk1,
            *final(ks_result1),
        ),
        programmable_bootstrap.ensures((&*final(ks_result1), accumulator), *final(output_pbs_ct)),
        final(ks_result2).data@ == ksk2@.keyswitched(final(output_pbs_ct).data@),
{
    let mut packed_glwe1 = output_pks.clone();
    pack_lwe_list_into_glwe(lwe_pksk, input_lwe_ciphertext_list1, &mut packed_glwe1);
    let mut packed_glwe2 = output_pks.clone();
    pack_lwe_list_into_glwe(lwe_pksk, input_lwe_ciphertext_list2, &mut packed_glwe2);
    proof {
        lemma_same_size(packed_glwe1@, old(output_pks)@);
    }
    product_path(
        &packed_glwe1,
        &packed_glwe1,
        scale,
        relinearisation_key,
        output_relin,
        extracted_sample,
        ksk1,
        ks_result1,
    );
    *output_pbs_ct = programmable_bootstrap(ks_result1, accumulator);
    keyswitch_lwe_ciphertext(ksk2, output_pbs_ct, ks_result2);
}

/// Square a GLWE ciphertext with a tensor product and a relinearisation,
/// extract the sample that the circuits read, switch its key and bootstrap
/// it.  The second ciphertext is not looked at.
pub fn glwe_tensor_mult_with_relin_pbs_ks_a<F: Fn(&LweCiphertext, &GlweCiphertext) -> LweCiphertext>(
    packed_glwe1: &GlweCiphertext,
    packed_glwe2: &GlweCiphertext,
    scale: u64,
    relinearisation_key: &GlweRelinearisationKey,
    output_relin: &mut GlweCiphertext,
    extracted_sample: &mut LweCiphertext,
    ksk1: &LweKeyswitchKey,
    ks_result1: &mut LweCiphertext,
    accumulator: &GlweCiphertext,
    programmable_bootstrap: &F,
    output_pbs_ct: &mut LweCiphertext,
)
    requires
        packed_glwe1.wf(),
        scale != 0,
        product_path_fits(
            packed_glwe1@,
            *relinearisation_key,
            *old(output_relin),
            *old(extracted_sample),
            *ksk1,
            *old(ks_result1),
        ),
        forall|input: &LweCiphertext, acc: &GlweCiphertext| #[trigger] programmable_bootstrap.requires((input, acc)),
    ensures
        is_product_path(
            packed_glwe1@,
            packed_glwe1@,
            scale,
            *relinearisation_key,
            *final(output_relin),
            *final(extracted_sample),
            *ksk1,
            *final(ks_result1),
        ),
        programmable_bootstrap.ensures((&*final(ks_result1), accumulator), *final(output_pbs_ct)),
{
    product_path(
        packed_glwe1,
        packed_glwe1,
        scale,
        relinearisation_key,
        output_relin,
        extracted_sample,
        ksk1,
        ks_result1,
    );
    *output_pbs_ct = programmable_bootstrap(ks_result1, accumulator);
}

/// Square a GLWE ciphertext with a tensor product and a relinearisation,
/// extract the sample that the circuits read, switch its key, bootstrap it,
/// and switch the key of the result.  The second ciphertext is not looked
/// at.
pub fn glwe_tensor_mult_with_relin_pbs_ks_c<F: Fn(&LweCiphertext, &GlweCiphertext) -> LweCiphertext>(
    packed_glwe1: &GlweCiphertext,
    packed_glwe2: &GlweCiphertext,
    scale: u64,
    relinearisation_key: &GlweRelinearisationKey,
    output_relin: &mut GlweCiphertext,
    extracted_sample: &mut LweCiphertext,
    ksk1: &LweKeyswitchKey,
    ks_result1: &mut LweCiphertext,
    accumulator: &GlweCiphertext,
    programmable_bootstrap: &F,
    output_pbs_ct: &mut LweCiphertext,
    ksk2: &LweKeyswitchKey,
    ks_result2: &mut LweCiphertext,
)
    requires
        packed_glwe1.wf(),
        scale != 0,
        product_path_fits(
            packed_glwe1@,
            *relinearisation_key,
            *old(output_relin),
            *old(extracted_sample),
            *ksk1,
            *old(ks_result1),
        ),
        bootstrap_fits(*programmable_bootstrap, ksk2@.input_key_lwe_dimension() + 1),
        ksk2@.can_switch(),
        old(ks_result2).data@.len() == ksk2.output_lwe_size,
        old(ks_result2).ciphertext_modulus == ksk2.ciphertext_modulus,
    ensures
        is_product_path(
            packed_glwe1@,
            packed_glwe1@,
            scale,
            *relinearisation_key,
            *final(output_relin),
            *final(extracted_sample),
            *ksk1,
            *final(ks_result1),
        ),
        programmable_bootstrap.ensures((&*final(ks_result1), accumulator), *final(output_pbs_ct)),
        final(ks_result2).data@ == ksk2@.keyswitched(final(output_pbs_ct).data@),
{
    product_path(
        packed_glwe1,
        packed_glwe1,
        scale,
        relinearisation_key,
        output_relin,
        extracted_sample,
        ksk1,
        ks_result1,
    );
    *output_pbs_ct = programmable_bootstrap(ks_result1, accumulator);
    keyswitch_lwe_ciphertext(ksk2, output_pbs_ct, ks_result2);
}

/// `outputs` are what the bootstrap gave, call by call, for inputs that all
/// hold the coefficients `input_data`.
pub open spec fn are_bootstraps_of<F: Fn(&LweCiphertext, &GlweCiphertext) -> LweCiphertext>(
    programmable_bootstrap: F,
    accumulator: GlweCiphertext,
    input_data: Seq<u64>,
    inputs: Seq<LweCiphertext>,
    outputs: Seq<LweCiphertext>,
) -> bool {
    &&& inputs.len() == outputs.len()
    &&& forall|i: int| 0 <= i < inputs.len() ==> {
        &&& (#[trigger] inputs[i]).data@ == input_data
        &&& programmable_bootstrap.ensures((&inputs[i], &accumulator), outputs[i])
    }
}

/// `start` with the first `count` of the squares of the sum and of the
/// squares of the difference added to it, round by round.
pub open spec fn rounds_sum(
    start: Seq<u64>,
    squares_of_sum: Seq<LweCiphertext>,
    squares_of_difference: Seq<LweCiphertext>,
    count: nat,
) -> Seq<u64>
    decreases count,
{
    if count == 0 {
        start
    } else {
        lwe_sum(
            lwe_sum(
                rounds_sum(start, squares_of_sum, squares_of_difference, (count - 1) as nat),
                squares_of_sum[count - 1].data@,
            ),
            squares_of_difference[count - 1].data@,
        )
    }
}

/// The number of rounds that `nb_mults` asks for.
pub open spec fn round_count(nb_mults: i8) -> nat {
    if nb_mults > 0 {
        nb_mults as nat
    } else {
        0
    }
}

/// What the square trick asks of its ciphertexts and keys: the two factors
/// and the two buffers for the squares have one size and one modulus, and
/// each key switching key takes ciphertexts of that size to its result.
pub open spec fn squares_fit(
    lwe_lhs: LweCiphertext,
    lwe_rhs: LweCiphertext,
    sq_sum: LweCiphertext,
    sq_subtraction: LweCiphertext,
    ksk1: LweKeyswitchKey,
    ks_result1: LweCiphertext,
    ksk2: LweKeyswitchKey,
    ks_result2: LweCiphertext,
    ksk: LweKeyswitchKey,
    ks_result: LweCiphertext,
) -> bool {
    let size = lwe_lhs.data@.len();
    &&& lwe_rhs.data@.len() == size
    &&& sq_sum.data@.len() == size
    &&& sq_subtraction.data@.len() == size
    &&& lwe_rhs.ciphertext_modulus == lwe_lhs.ciphertext_modulus
    &&& sq_sum.ciphertext_modulus == lwe_lhs.ciphertext_modulus
    &&& sq_subtraction.ciphertext_modulus == lwe_lhs.ciphertext_modulus
    &&& ksk1@.can_switch()
    &&& size == ksk1@.input_key_lwe_dimension() + 1
    &&& ks_result1.data@.len() == ksk1.output_lwe_size
    &&& ks_result1.ciphertext_modulus == ksk1.ciphertext_modulus
    &&& ksk2@.can_switch()
    &&& size == ksk2@.input_key_lwe_dimension() + 1
    &&& ks_result2.data@.len() == ksk2.output_lwe_size
    &&& ks_result2.ciphertext_modulus == ksk2.ciphertext_modulus
    &&& ksk@.can_switch()
    &&& size == ksk@.input_key_lwe_dimension() + 1
    &&& ks_result.data@.len() == ksk.output_lwe_size
    &&& ks_result.ciphertext_modulus == ksk.ciphertext_modulus
}

/// A product from two squares.  In every round the sum and the difference
/// of the two factors are key switched and bootstrapped, the one with the
/// table of `accumulator1` into `sq_sum`, the other with the table of
/// `accumulator2` into `sq_subtraction`, and both results are added to what
/// `sq_sum` held at the start.  The sum of all rounds is key switched into
/// `ks_result` and bootstrapped with the table of `accumulator` into
/// `output_pbs_ct`.
pub fn square_trick<
    F1: Fn(&LweCiphertext, &GlweCiphertext) -> LweCiphertext,
    F2: Fn(&LweCiphertext, &GlweCiphertext) -> LweCiphertext,
    F3: Fn(&LweCiphertext, &GlweCiphertext) -> LweCiphertext,
>(
    lwe_lhs: &LweCiphertext,
    lwe_rhs: &LweCiphertext,
    nb_mults: i8,
    ksk1: &LweKeyswitchKey,
    ks_result1: &mut LweCiphertext,
    ksk2: &LweKeyswitchKey,
    ks_result2: &mut LweCiphertext,
    accumulator1: &GlweCiphertext,
    accumulator2: &GlweCiphertext,
    programmable_bootstrap1: &F1,
    programmable_bootstrap2: &F2,
    sq_sum: &mut LweCiphertext,
    sq_subtraction: &mut LweCiphertext,
    ksk: &LweKeyswitchKey,
    ks_result: &mut LweCiphertext,
    accumulator: &GlweCiphertext,
    programmable_bootstrap: &F3,
    output_pbs_ct: &mut LweCiphertext,
)
    requires
        squares_fit(
            *lwe_lhs,
            *lwe_rhs,
            *old(sq_sum),
            *old(sq_subtraction),
            *ksk1,
            *old(ks_result1),
            *ksk2,
            *old(ks_result2),
            *ksk,
            *old(ks_result),
        ),
        bootstrap_fits(*programmable_bootstrap1, lwe_lhs.data@.len() as int),
        bootstrap_fits(*programmable_bootstrap2, lwe_lhs.data@.len() as int),
        forall|input: &LweCiphertext, acc: &GlweCiphertext| #[trigger] programmable_bootstrap.requires((input, acc)),
    ensures
        exists|inputs1: Seq<LweCiphertext>, squares1: Seq<LweCiphertext>, inputs2: Seq<LweCiphertext>, squares2: Seq<LweCiphertext>|
            {
                let rounds = round_count(nb_mults);
                &&& squares1.len() == rounds
                &&& squares2.len() == rounds
                &&& #[trigger] are_bootstraps_of(
                    *programmable_bootstrap1,
                    *accumulator1,
                    ksk1@.keyswitched(lwe_sum(lwe_lhs.data@, lwe_rhs.data@)),
                    inputs1,
                    squares1,
                )
                &&& #[trigger] are_bootstraps_of(
                    *programmable_bootstrap2,
                    *accumulator2,
                    ksk2@.keyswitched(lwe_difference(lwe_lhs.data@, lwe_rhs.data@)),
                    inputs2,
                    squares2,
                )
                &&& if rounds == 0 {
                    &&& final(sq_sum).data@ == old(sq_sum).data@
                    &&& final(sq_subtraction).data@ == old(sq_subtraction).data@
                    &&& final(ks_result1).data@ == old(ks_result1).data@
                    &&& final(ks_result2).data@ == old(ks_result2).data@
                } else {
                    &&& final(sq_sum).data@ == squares1[rounds - 1].data@
                    &&& final(sq_subtraction).data@ == squares2[rounds - 1].data@
                    &&& final(ks_result1).data@ == ksk1@.keyswitched(lwe_sum(lwe_lhs.data@, lwe_rhs.data@))
                    &&& final(ks_result2).data@ == ksk2@.keyswitched(lwe_difference(lwe_lhs.data@, lwe_rhs.data@))
                }
                &&& final(ks_result).data@ == ksk@.keyswitched(rounds_sum(old(sq_sum).data@, squares1, squares2, rounds))
            },
        programmable_bootstrap.ensures((&*final(ks_result), accumulator), *final(output_pbs_ct)),
{
    let mut result_sum = sq_sum.clone();
    let ghost size = lwe_lhs.data@.len();
    let ghost sum_data = ksk1@.keyswitched(lwe_sum(lwe_lhs.data@, lwe_rhs.data@));
    let ghost difference_data = ksk2@.keyswitched(lwe_difference(lwe_lhs.data@, lwe_rhs.data@));
    let ghost mut inputs1: Seq<LweCiphertext> = Seq::empty();
    let ghost mut squares1: Seq<LweCiphertext> = Seq::empty();
    let ghost mut inputs2: Seq<LweCiphertext> = Seq::empty();
    let ghost mut squares2: Seq<LweCiphertext> = Seq::empty();
    let mut round: i8 = 0;
    while round < nb_mults
        invariant
            0 <= round,
            round <= nb_mults || round == 0,
            size == lwe_lhs.data@.len(),
            squares_fit(*lwe_lhs, *lwe_rhs, *sq_sum, *sq_subtraction, *ksk1, *ks_result1, *ksk2, *ks_result2, *ksk, *ks_result),
            bootstrap_fits(*programmable_bootstrap1, size as int),
            bootstrap_fits(*programmable_bootstrap2, size as int),
            sum_data == ksk1@.keyswitched(lwe_sum(lwe_lhs.data@, lwe_rhs.data@)),
            difference_data == ksk2@.keyswitched(lwe_difference(lwe_lhs.data@, lwe_rhs.data@)),
            ks_result.data@ == old(ks_result).data@,
            ks_result.ciphertext_modulus == old(ks_result).ciphertext_modulus,
            squares1.len() == round,
            squares2.len() == round,
            are_bootstraps_of(*programmable_bootstrap1, *accumulator1, sum_data, inputs1, squares1),
            are_bootstraps_of(*programmable_bootstrap2, *accumulator2, difference_data, inputs2, squares2),
            result_sum.data@ == rounds_sum(old(sq_sum).data@, squares1, squares2, round as nat),
            result_sum.data@.len() == size,
            result_sum.ciphertext_modulus == lwe_lhs.ciphertext_modulus,
            if round == 0 {
                &&& sq_sum.data@ == old(sq_sum).data@
                &&& sq_subtraction.data@ == old(sq_subtraction).data@
                &&& ks_result1.data@ == old(ks_result1).data@
                &&& ks_result2.data@ == old(ks_result2).data@
            } else {
                &&& sq_sum.data@ == squares1[round - 1].data@
                &&& sq_subtraction.data@ == squares2[round - 1].data@
                &&& ks_result1.data@ == sum_data
                &&& ks_result2.data@ == difference_data
            },
        decreases nb_mults - round,
    {
        let mut sum = sq_sum.clone();
        lwe_ciphertext_add(&mut sum, lwe_lhs, lwe_rhs);
        keyswitch_lwe_ciphertext(ksk1, &sum, ks_result1);
        let square_of_sum = programmable_bootstrap1(ks_result1, accumulator1);
        let ghost input1 = *ks_result1;
        let ghost made1 = square_of_sum;
        sq_sum.data = square_of_sum.data;

        let mut subtraction = sq_subtraction.clone();
        lwe_ciphertext_sub(&mut subtraction, lwe_lhs, lwe_rhs);
        keyswitch_lwe_ciphertext(ksk2, &subtraction, ks_result2);
        let square_of_difference = programmable_bootstrap2(ks_result2, accumulator2);
        let ghost input2 = *ks_result2;
        let ghost made2 = square_of_difference;
        sq_subtraction.data = square_of_difference.data;

        lwe_ciphertext_add_assign(&mut result_sum, sq_sum);
        lwe_ciphertext_add_assign(&mut result_sum, sq_subtraction);
        proof {
            let before1 = squares1;
            let before2 = squares2;
            inputs1 = inputs1.push(input1);
            squares1 = squares1.push(made1);
            inputs2 = inputs2.push(input2);
            squares2 = squares2.push(made2);
            lemma_rounds_sum_extends(old(sq_sum).data@, before1, before2, made1, made2, round as nat);
        }
        round = round + 1;
    }
    let result = result_sum.clone();
    keyswitch_lwe_ciphertext(ksk, &result, ks_result);
    *output_pbs_ct = programmable_bootstrap(ks_result, accumulator);
    proof {
        assert(round as nat == round_count(nb_mults));
        assert(are_bootstraps_of(*programmable_bootstrap1, *accumulator1, sum_data, inputs1, squares1));
        assert(are_bootstraps_of(*programmable_bootstrap2, *accumulator2, difference_data, inputs2, squares2));
    }
}

/// Squares that are added behind do not change the sum of the rounds before
/// them.
proof fn lemma_rounds_sum_extends(
    start: Seq<u64>,
    squares1: Seq<LweCiphertext>,
    squares2: Seq<LweCiphertext>,
    made1: LweCiphertext,
    made2: LweCiphertext,
    count: nat,
)
    requires
        count <= squares1.len(),
        count <= squares2.len(),
    ensures
        rounds_sum(start, squares1.push(made1), squares2.push(made2), count) == rounds_sum(start, squares1, squares2, count),
    decreases count,
{
    if count > 0 {
        lemma_rounds_sum_extends(start, squares1, squares2, made1, made2, (count - 1) as nat);
    }
}

} // verus!
