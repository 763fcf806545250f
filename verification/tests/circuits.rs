use fhe_graph::circuits::{
    extract_lwe_sample_from_glwe_ciphertext, glwe_tensor_mult_with_relin_pbs_ks_a,
    glwe_tensor_mult_with_relin_pbs_ks_c, lwe_ciphertext_add, lwe_ciphertext_add_assign, lwe_ciphertext_sub,
    pack_lwe_list_into_glwe_tensor_mult_with_relin_pbs, pack_lwe_list_into_glwe_tensor_mult_with_relin_pbs_ks,
    square_trick,
};
use fhe_graph::{
    CiphertextModulus, GlweCiphertext, GlweRelinearisationKey, LweCiphertext, LweCiphertextList,
    LweKeyswitchKey, LwePackingKeyswitchKey,
};

const NATIVE: CiphertextModulus = CiphertextModulus { inner: 0 };
const N: usize = 64;

/// Coefficients that look random and are the same in every run.
fn coefficients(count: usize, seed: u64) -> Vec<u64> {
    (0..count as u64)
        .map(|i| i.wrapping_mul(0x9E37_79B9_7F4A_7C15).wrapping_add(seed.wrapping_mul(0xD1B5_4A32_D192_ED03)))
        .collect()
}

fn checksum(values: &[u64]) -> u64 {
    values.iter().fold(0u64, |hash, value| hash.wrapping_mul(1099511628211).wrapping_add(*value))
}

fn glwe(data: Vec<u64>, polynomial_size: usize) -> GlweCiphertext {
    GlweCiphertext { data, polynomial_size, ciphertext_modulus: NATIVE }
}

fn lwe(data: Vec<u64>) -> LweCiphertext {
    LweCiphertext { data, ciphertext_modulus: NATIVE }
}

fn switching_key(input: usize, output_size: usize, seed: u64) -> LweKeyswitchKey {
    LweKeyswitchKey {
        data: coefficients(input * 2 * output_size, seed),
        decomp_base_log: 4,
        decomp_level_count: 2,
        output_lwe_size: output_size,
        ciphertext_modulus: NATIVE,
    }
}

fn relinearisation_key() -> GlweRelinearisationKey {
    GlweRelinearisationKey {
        data: coefficients(2 * 2 * N, 3),
        glwe_size: 2,
        polynomial_size: N,
        decomp_base_log: 5,
        decomp_level_count: 2,
        ciphertext_modulus: NATIVE,
    }
}

/// Stands in for the bootstrap: a ciphertext of `size` coefficients made of
/// the input and the accumulator.
fn bootstrap(size: usize) -> impl Fn(&LweCiphertext, &GlweCiphertext) -> LweCiphertext {
    move |input: &LweCiphertext, accumulator: &GlweCiphertext| {
        lwe((0..size)
            .map(|j| {
                input.data[j % input.data.len()]
                    .wrapping_mul(31)
                    .wrapping_add(accumulator.data[j % accumulator.data.len()])
            })
            .collect())
    }
}

#[test]
fn a_sample_reads_the_mask_backwards_from_its_coefficient() {
    let input = glwe(vec![1, 2, 3, 4, 10, 20, 30, 40, 100, 200, 300, 400], 4);
    let mut sample = lwe(vec![0; 9]);
    extract_lwe_sample_from_glwe_ciphertext(&input, &mut sample, 1);
    assert_eq!(
        sample.data,
        vec![
            2,
            1,
            18446744073709551612,
            18446744073709551613,
            20,
            10,
            18446744073709551576,
            18446744073709551586,
            200
        ]
    );
    extract_lwe_sample_from_glwe_ciphertext(&input, &mut sample, 3);
    assert_eq!(sample.data, vec![4, 3, 2, 1, 40, 30, 20, 10, 400]);
    extract_lwe_sample_from_glwe_ciphertext(&input, &mut sample, 0);
    assert_eq!(
        sample.data,
        vec![
            1,
            18446744073709551612,
            18446744073709551613,
            18446744073709551614,
            10,
            18446744073709551576,
            18446744073709551586,
            18446744073709551596,
            100
        ]
    );
}

#[test]
fn lwe_ciphertexts_add_and_subtract_coefficient_by_coefficient() {
    let lhs = lwe(coefficients(4, 10));
    let rhs = lwe(coefficients(4, 11));
    let mut output = lwe(vec![0; 4]);
    lwe_ciphertext_add(&mut output, &lhs, &rhs);
    assert_eq!(
        output.data,
        vec![3737730590503170367, 8092416155440015721, 12447101720376861075, 16801787285313706429]
    );
    lwe_ciphertext_sub(&mut output, &lhs, &rhs);
    assert_eq!(output.data, vec![3335678366873096957; 4]);
    lwe_ciphertext_add_assign(&mut output, &rhs);
    assert_eq!(output.data, lhs.data);
    let mut wrapped = lwe(vec![u64::MAX, 0]);
    lwe_ciphertext_add_assign(&mut wrapped, &lwe(vec![2, 0]));
    assert_eq!(wrapped.data, vec![1, 0]);
    lwe_ciphertext_sub(&mut output, &lwe(vec![0, 5, 0, 0]), &lwe(vec![1, 5, 0, 0]));
    assert_eq!(output.data, vec![u64::MAX, 0, 0, 0]);
}

#[test]
fn the_square_of_a_ciphertext_goes_through_all_stages() {
    let packed1 = glwe(coefficients(2 * N, 1), N);
    let packed2 = glwe(coefficients(2 * N, 2), N);
    let mut output_relin = glwe(vec![0; 2 * N], N);
    let mut extracted_sample = lwe(vec![0; N + 1]);
    let ksk1 = switching_key(N, 5, 4);
    let mut ks_result1 = lwe(vec![0; 5]);
    let accumulator = glwe(coefficients(2 * N, 5), N);
    let mut output_pbs_ct = lwe(vec![0; 7]);
    glwe_tensor_mult_with_relin_pbs_ks_a(
        &packed1,
        &packed2,
        1 << 18,
        &relinearisation_key(),
        &mut output_relin,
        &mut extracted_sample,
        &ksk1,
        &mut ks_result1,
        &accumulator,
        &bootstrap(7),
        &mut output_pbs_ct,
    );
    assert_eq!(checksum(&output_relin.data), 15681977725001258666);
    assert_eq!(output_relin.data[0], 8932173312359247105);
    assert_eq!(output_relin.data[127], 17213931794287293411);
    assert_eq!(checksum(&extracted_sample.data), 4311577391461792321);
    assert_eq!(extracted_sample.data[0], 8615798990584947774);
    assert_eq!(extracted_sample.data[64], 17627207449026813434);
    let switched = vec![
        7996105400108724375,
        72057775109039313,
        10594754223818905867,
        2670706598819220805,
        12373866422846349177,
    ];
    let bootstrapped = vec![
        9839946684490351448,
        15402858087047484019,
        2519025415895064974,
        8081936818452197545,
        6685956929553998090,
        11503288559977689025,
        17066199962534821596,
    ];
    assert_eq!(ks_result1.data, switched);
    assert_eq!(output_pbs_ct.data, bootstrapped);

    // The longer circuit does the same and switches the key once more.
    let ksk2 = switching_key(6, 4, 6);
    let mut ks_result2 = lwe(vec![0; 4]);
    glwe_tensor_mult_with_relin_pbs_ks_c(
        &packed1,
        &packed2,
        1 << 18,
        &relinearisation_key(),
        &mut output_relin,
        &mut extracted_sample,
        &ksk1,
        &mut ks_result1,
        &accumulator,
        &bootstrap(7),
        &mut output_pbs_ct,
        &ksk2,
        &mut ks_result2,
    );
    assert_eq!(ks_result1.data, switched);
    assert_eq!(output_pbs_ct.data, bootstrapped);
    assert_eq!(
        ks_result2.data,
        vec![3576003824500802040, 7930689389437647394, 12285374954374492748, 15259516408136608082]
    );
}

#[test]
fn packed_lists_are_multiplied_and_bootstrapped() {
    let pksk = LwePackingKeyswitchKey {
        data: coefficients(3 * 2 * 2 * N, 7),
        decomp_base_log: 4,
        decomp_level_count: 2,
        output_glwe_size: 2,
        output_polynomial_size: N,
        ciphertext_modulus: NATIVE,
    };
    let list1 = LweCiphertextList { data: coefficients(8, 8), lwe_size: 4, ciphertext_modulus: NATIVE };
    let list2 = LweCiphertextList { data: coefficients(8, 9), lwe_size: 4, ciphertext_modulus: NATIVE };
    let mut output_pks = glwe(vec![5; 2 * N], N);
    let mut output_relin = glwe(vec![0; 2 * N], N);
    let mut extracted_sample = lwe(vec![0; N + 1]);
    let ksk1 = switching_key(N, 5, 4);
    let mut ks_result1 = lwe(vec![0; 5]);
    let accumulator = glwe(coefficients(2 * N, 5), N);
    let mut output_pbs_ct = lwe(vec![0; 7]);
    pack_lwe_list_into_glwe_tensor_mult_with_relin_pbs(
        &pksk,
        &list1,
        &list2,
        &mut output_pks,
        1 << 18,
        &relinearisation_key(),
        &mut output_relin,
        &mut extracted_sample,
        &ksk1,
        &mut ks_result1,
        &accumulator,
        &bootstrap(7),
        &mut output_pbs_ct,
    );
    // The buffer that lends its shape is left as it was.
    assert_eq!(output_pks.data, vec![5; 2 * N]);
    assert_eq!(checksum(&output_relin.data), 11625102325909980242);
    assert_eq!(
        ks_result1.data,
        vec![
            9105209336674059689,
            17179240405022583020,
            6806527399661554735,
            14880558468010078066,
            11127146855900330045
        ]
    );
    assert_eq!(
        output_pbs_ct.data,
        vec![
            7328680570596642950,
            10769941476790342072,
            14211202382984041194,
            17652463289177740316,
            4931138501646508230,
            8992022446083980527,
            12433283352277679649
        ]
    );

    // The longer circuit squares the first list and leaves the second aside.
    let ksk2 = switching_key(6, 4, 6);
    let mut ks_result2 = lwe(vec![0; 4]);
    pack_lwe_list_into_glwe_tensor_mult_with_relin_pbs_ks(
        &pksk,
        &list1,
        &list2,
        &mut output_pks,
        1 << 18,
        &relinearisation_key(),
        &mut output_relin,
        &mut extracted_sample,
        &ksk1,
        &mut ks_result1,
        &accumulator,
        &bootstrap(7),
        &mut output_pbs_ct,
        &ksk2,
        &mut ks_result2,
    );
    assert_eq!(output_pks.data, vec![5; 2 * N]);
    assert_eq!(checksum(&output_relin.data), 10095759601082278412);
    assert_eq!(
        ks_result1.data,
        vec![
            6906018320426051415,
            10532668958098403107,
            14159319595770754799,
            17785970233443106491,
            8250975292534011771
        ]
    );
    assert_eq!(
        output_pbs_ct.data,
        vec![
            12940735361746592920,
            7640411432945832545,
            2340087504145072170,
            15486507649053863411,
            8003540405838399816,
            14604077237233930497,
            9303753308433170122
        ]
    );
    assert_eq!(
        ks_result2.data,
        vec![643938822128940396, 10381311765964801304, 1671940636091110596, 2266322814650590010]
    );
}

struct Squares {
    sq_sum: Vec<u64>,
    sq_subtraction: Vec<u64>,
    ks_result1: Vec<u64>,
    ks_result2: Vec<u64>,
    ks_result: Vec<u64>,
    output: Vec<u64>,
}

fn squares(nb_mults: i8) -> Squares {
    let lhs = lwe(coefficients(4, 10));
    let rhs = lwe(coefficients(4, 11));
    let mut sq_sum = lwe(coefficients(4, 12));
    let mut sq_subtraction = lwe(coefficients(4, 13));
    let mut ks_result1 = lwe(vec![1; 3]);
    let mut ks_result2 = lwe(vec![2; 3]);
    let mut ks_result = lwe(vec![0; 5]);
    let mut output_pbs_ct = lwe(vec![0; 6]);
    square_trick(
        &lhs,
        &rhs,
        nb_mults,
        &switching_key(3, 3, 14),
        &mut ks_result1,
        &switching_key(3, 3, 15),
        &mut ks_result2,
        &glwe(coefficients(8, 17), 4),
        &glwe(coefficients(8, 18), 4),
        &bootstrap(4),
        &bootstrap(4),
        &mut sq_sum,
        &mut sq_subtraction,
        &switching_key(3, 5, 16),
        &mut ks_result,
        &glwe(coefficients(8, 19), 4),
        &bootstrap(6),
        &mut output_pbs_ct,
    );
    Squares {
        sq_sum: sq_sum.data,
        sq_subtraction: sq_subtraction.data,
        ks_result1: ks_result1.data,
        ks_result2: ks_result2.data,
        ks_result: ks_result.data,
        output: output_pbs_ct.data,
    }
}

#[test]
fn the_square_trick_adds_the_squares_of_every_round() {
    let three = squares(3);
    assert_eq!(
        three.sq_sum,
        vec![70102105343582684, 12313429007150298799, 10456583616104917349, 15825502489603626523]
    );
    assert_eq!(
        three.sq_subtraction,
        vec![15532799486057315438, 18131448309767496930, 13455662064286374393, 12841455796607807661]
    );
    assert_eq!(three.ks_result1, vec![5401841896272372279, 10784529275171387833, 14522259865674558200]);
    assert_eq!(three.ks_result2, vec![6008241113936463560, 8699584803385971337, 14726606859708576071]);
    assert_eq!(
        three.ks_result,
        vec![
            13531951696039028009,
            18279299013412876186,
            4579902257077172747,
            9327249574451020924,
            2015755437403845544
        ]
    );
    assert_eq!(
        three.output,
        vec![
            5624476206139545392,
            16619005274375624436,
            9166790268902151864,
            1714575263428679292,
            7819900718804060389,
            7287818081626882969
        ]
    );
}

#[test]
fn the_square_trick_without_a_round_bootstraps_what_it_was_given() {
    for nb_mults in [0, -2] {
        let none = squares(nb_mults);
        assert_eq!(none.sq_sum, coefficients(4, 12));
        assert_eq!(none.sq_subtraction, coefficients(4, 13));
        assert_eq!(none.ks_result1, vec![1; 3]);
        assert_eq!(none.ks_result2, vec![2; 3]);
        assert_eq!(
            none.ks_result,
            vec![
                11741519912397272071,
                11106179850872104694,
                10470839789346937317,
                9835499727821769940,
                3374163721789034534
            ]
        );
        assert_eq!(
            none.output,
            vec![
                5461323134373766162,
                15613240120126327576,
                7318413032169337374,
                17470330017921898788,
                13037069387325815847,
                7124665009861103739
            ]
        );
    }
}
