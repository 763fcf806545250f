use fhe_graph::cast::{tabulate_identity, tabulate_shift_left, tabulate_shift_right};
use fhe_graph::decomposition::power_of_two;
use fhe_graph::{
    glwe_relinearisation, glwe_tensor_product, keyswitch_lwe_ciphertext, pack_lwe_list_into_glwe,
    tensor_mult_with_relin, BootstrappingKey, Ciphertext, CiphertextModulus, EncryptionKeyChoice,
    GlweCiphertext, GlweRelinearisationKey, KeySwitchingKey, KeySwitchingKeyView, LookupTable, LweCiphertext,
    LweCiphertextList, LweKeyswitchKey, LwePackingKeyswitchKey, PBSOrder, ServerKey, SignedDecomposer,
};

const NATIVE: CiphertextModulus = CiphertextModulus { inner: 0 };

#[test]
fn closest_representable_rounds_at_the_first_bit_left_out() {
    let decomposer = SignedDecomposer::new(4, 3);
    assert_eq!(decomposer.closest_representable(0), 0);
    assert_eq!(decomposer.closest_representable(0x0008_0000_0000_0000), 0x0010_0000_0000_0000);
    assert_eq!(decomposer.closest_representable(0x0007_ffff_ffff_ffff), 0);
    // Rounding up from the top wraps around to zero.
    assert_eq!(decomposer.closest_representable(u64::MAX), 0);
    assert_eq!(decomposer.closest_representable(0x1234_5678_9abc_def0), 1310547491564814336);
}

#[test]
fn digits_are_balanced_and_come_least_significant_first() {
    let decomposer = SignedDecomposer::new(4, 3);
    assert_eq!(decomposer.decompose(0), vec![0, 0, 0]);
    assert_eq!(decomposer.decompose(0x8000_0000_0000_0000), vec![0, 0, 8]);
    assert_eq!(decomposer.decompose(0x7800_0000_0000_0000), vec![0, 8, 7]);
    assert_eq!(decomposer.decompose(u64::MAX), vec![0, 0, 0]);
    assert_eq!(decomposer.decompose(0x1234_5678_9abc_def0), vec![3, 2, 1]);
    // A digit of half the base goes down when the next digit is large.
    assert_eq!(
        decomposer.decompose(0x0880_0000_0000_0000),
        vec![18446744073709551608, 18446744073709551609, 1]
    );
    assert_eq!(
        decomposer.decompose(0x8800_0000_0000_0000),
        vec![0, 18446744073709551608, 18446744073709551609]
    );
    assert_eq!(
        SignedDecomposer::new(1, 5).decompose(0xb400_0000_0000_0000),
        vec![18446744073709551615, 0, 0, 18446744073709551615, 0]
    );
    assert_eq!(
        SignedDecomposer::new(7, 9).decompose(0xdead_beef_0123_4567),
        vec![
            52,
            18446744073709551557,
            18446744073709551559,
            5,
            18446744073709551608,
            18446744073709551599,
            56,
            43,
            18446744073709551599
        ]
    );
    assert_eq!(power_of_two(0), 1);
    assert_eq!(power_of_two(63), 1 << 63);
}

fn switching_key() -> LweKeyswitchKey {
    LweKeyswitchKey {
        data: vec![
            13515657874892102023,
            15129553140981592645,
            14809938836708178893,
            15774518201988393282,
            17188393767951940199,
            4985137385606203988,
            8046993897209325893,
            6881813287187799947,
            16125670290659210324,
            4816260449376201035,
            11570069662165393444,
            11285152104292927369,
            3446018582270436793,
            13616437186283622689,
            13519059396826741711,
            9796009710311115986,
            13565560346403939986,
            10792308714086901791,
        ],
        decomp_base_log: 5,
        decomp_level_count: 2,
        output_lwe_size: 3,
        ciphertext_modulus: NATIVE,
    }
}

const SWITCH_INPUT: [u64; 4] =
    [3072727624150280346, 3794756855380371525, 1435931999638272781, 15441221205979428565];

const SWITCH_OUTPUT: [u64; 3] = [8431626105607691049, 9174006024538475749, 15502193524628838329];

#[test]
fn a_key_switch_takes_the_products_of_digits_and_key_off_the_body() {
    let key = switching_key();
    let input = LweCiphertext { data: SWITCH_INPUT.to_vec(), ciphertext_modulus: NATIVE };
    let mut output = LweCiphertext { data: vec![7, 7, 7], ciphertext_modulus: NATIVE };
    keyswitch_lwe_ciphertext(&key, &input, &mut output);
    assert_eq!(output.data, SWITCH_OUTPUT.to_vec());
    assert_eq!(output.ciphertext_modulus, NATIVE);
    // A mask of zeros leaves the body alone.
    let plain = LweCiphertext { data: vec![0, 0, 0, 42], ciphertext_modulus: NATIVE };
    keyswitch_lwe_ciphertext(&key, &plain, &mut output);
    assert_eq!(output.data, vec![0, 0, 42]);
}

#[test]
fn relinearisation_brings_a_tensor_product_back_to_three_polynomials() {
    let key = GlweRelinearisationKey {
        data: vec![
            5940567713233535239,
            8464077112431967362,
            495664619263271681,
            9420932444907695650,
            12741368234109995270,
            7664225158426101066,
            123100759219922640,
            12246793704608856168,
            3021706240337810846,
            10701126688782509631,
            5286375280603737045,
            12037244071987171008,
            1953382953708866778,
            12569849586622039179,
            3350919833121026612,
            6917572908190574316,
            17712016599341141622,
            10994228475909012897,
            16844352835873823081,
            6085447665261760849,
            742500085444621992,
            2209962125935807334,
            9209073793829003437,
            13598795564570686766,
            13946642687760876726,
            12353966073431331312,
            4754343899128033937,
            7999896076212440554,
            16897746622936208918,
            2395661151836497898,
            18073709211994443880,
            5558496187847604090,
            15948151388970225971,
            172597821324353835,
            17801296389112086916,
            6451330536465442251,
        ],
        glwe_size: 3,
        polynomial_size: 2,
        decomp_base_log: 6,
        decomp_level_count: 2,
        ciphertext_modulus: NATIVE,
    };
    let input = GlweCiphertext {
        data: vec![
            6308175451005450063,
            7120683906288837975,
            236895846088702896,
            1123221273390886733,
            8210899693915372461,
            7159189460286746686,
            14740380003831013958,
            3310910749645895425,
            215996133496893554,
            13140254967128155258,
            3972520063736808413,
            9454387687692677134,
        ],
        polynomial_size: 2,
        ciphertext_modulus: NATIVE,
    };
    let mut output = GlweCiphertext { data: vec![1; 6], polynomial_size: 2, ciphertext_modulus: NATIVE };
    glwe_relinearisation(&input, &key, &mut output);
    let expected: Vec<u64> = vec![
        264994543356075334,
        3172470006715152643,
        14497186889614574384,
        10011332893253569073,
        12453641808833158997,
        2086862093788103178,
    ];
    assert_eq!(output.data, expected);
    assert_eq!(output.polynomial_size, 2);

    // With a key of zeros only what is kept comes through: the linear
    // polynomials and the body.
    let blank = GlweRelinearisationKey { data: vec![0; 36], ..key };
    glwe_relinearisation(&input, &blank, &mut output);
    assert_eq!(
        output.data,
        vec![
            236895846088702896,
            1123221273390886733,
            215996133496893554,
            13140254967128155258,
            3972520063736808413,
            9454387687692677134
        ]
    );
}

#[test]
fn a_tensor_product_with_relinearisation_is_the_one_after_the_other() {
    let key = GlweRelinearisationKey {
        data: (1..=36u64).map(|x| x.wrapping_mul(0x9e37_79b9_7f4a_7c15)).collect(),
        glwe_size: 3,
        polynomial_size: 2,
        decomp_base_log: 6,
        decomp_level_count: 2,
        ciphertext_modulus: NATIVE,
    };
    let lhs = GlweCiphertext {
        data: vec![u64::MAX, 1 << 63, 5, u64::MAX - 2, 1 << 61, 99],
        polynomial_size: 2,
        ciphertext_modulus: NATIVE,
    };
    let rhs = GlweCiphertext {
        data: vec![u64::MAX - 1, 3, 1 << 62, 7, 12345, 1 << 60],
        polynomial_size: 2,
        ciphertext_modulus: NATIVE,
    };
    let mut together = GlweCiphertext { data: vec![0; 6], polynomial_size: 2, ciphertext_modulus: NATIVE };
    tensor_mult_with_relin(&lhs, &rhs, 1 << 20, &key, &mut together);
    let product = glwe_tensor_product(&lhs, &rhs, 1 << 20);
    assert_eq!(product.data.len(), 12);
    let mut apart = GlweCiphertext { data: vec![0; 6], polynomial_size: 2, ciphertext_modulus: NATIVE };
    glwe_relinearisation(&product, &key, &mut apart);
    assert_eq!(together.data, apart.data);
    assert_ne!(together.data, vec![0; 6]);
}

#[test]
fn packing_puts_every_ciphertext_at_its_own_coefficient() {
    let key = LwePackingKeyswitchKey {
        data: vec![
            2241369823883942596,
            11471090748910479112,
            254892419357612817,
            9071938695347067170,
            14240662866761158599,
            17820701860784163862,
            17019042975767554549,
            10142200304454143677,
            6719910664025650302,
            12227359393470203212,
            2202202444884407082,
            2760730179108792751,
            9129165348354779568,
            16463810222779680359,
            6189910006475770528,
            3749341880136721304,
            3002308468479489223,
            2769677883324350151,
            1671196606386453292,
            12833774114208833848,
            2703214826562935424,
            12132134214268140228,
            16342691665418270362,
            15407886221016473523,
            17225736924774608060,
            15691010154271609526,
            4875081210458220180,
            13835488679462871749,
            1219633687171738399,
            13861914381804840313,
            8501463582677749277,
            3356156007447137140,
        ],
        decomp_base_log: 4,
        decomp_level_count: 2,
        output_glwe_size: 2,
        output_polynomial_size: 4,
        ciphertext_modulus: NATIVE,
    };
    let list = LweCiphertextList {
        data: vec![
            16951352228835675164,
            3400123950416765309,
            6879041868768447104,
            3245900172204009703,
            3280796154694990799,
            10544962268059163078,
            15190462450199705153,
            16479028770895632643,
            17712200011694641618,
        ],
        lwe_size: 3,
        ciphertext_modulus: NATIVE,
    };
    let mut output = GlweCiphertext { data: vec![9; 8], polynomial_size: 4, ciphertext_modulus: NATIVE };
    pack_lwe_list_into_glwe(&key, &list, &mut output);
    assert_eq!(
        output.data,
        vec![
            8464927743314734831,
            14319096289310932294,
            16696474714826870922,
            7390733962514551245,
            3666257912022944596,
            15485045569718601716,
            8606942511832560761,
            9661440260253192885
        ]
    );
    // Ciphertexts without a mask: the bodies land in the coefficients of the
    // body polynomial, one after the other.
    let plain = LweCiphertextList {
        data: vec![0, 0, 11, 0, 0, 22, 0, 0, 33, 0, 0, 44],
        lwe_size: 3,
        ciphertext_modulus: NATIVE,
    };
    pack_lwe_list_into_glwe(&key, &plain, &mut output);
    assert_eq!(output.data, vec![0, 0, 0, 0, 11, 22, 33, 44]);
    let empty = LweCiphertextList { data: vec![], lwe_size: 3, ciphertext_modulus: NATIVE };
    pack_lwe_list_into_glwe(&key, &empty, &mut output);
    assert_eq!(output.data, vec![0; 8]);
}

#[test]
fn shift_tables_take_the_values_of_their_shifts() {
    assert_eq!(tabulate_shift_right(8, 1), vec![0, 0, 1, 1, 2, 2, 3, 3]);
    assert_eq!(tabulate_shift_right(4, 0), vec![0, 1, 2, 3]);
    assert_eq!(tabulate_shift_right(3, 63), vec![0, 0, 0]);
    assert_eq!(tabulate_shift_left(8, 2, 16), vec![0, 4, 8, 12, 0, 4, 8, 12]);
    assert_eq!(tabulate_shift_left(4, 63, 7), vec![0, (1u64 << 63) % 7, 0, (1u64 << 63) % 7]);
    assert_eq!(tabulate_identity(5), vec![0, 1, 2, 3, 4]);
    assert_eq!(tabulate_identity(0), Vec::<u64>::new());
}

/// A server key with a small key of `small` coefficients, a big key of `big`,
/// and a key switching key of zeros from the big to the small.
fn server_key(small: usize, big: usize, moduli: usize, pbs_order: PBSOrder) -> ServerKey {
    ServerKey {
        key_switching_key: LweKeyswitchKey {
            data: vec![0; big * 2 * (small + 1)],
            decomp_base_log: 4,
            decomp_level_count: 2,
            output_lwe_size: small + 1,
            ciphertext_modulus: NATIVE,
        },
        bootstrapping_key: BootstrappingKey {
            input_lwe_dimension: small,
            glwe_size: 2,
            polynomial_size: big,
            decomp_base_log: 8,
            decomp_level_count: 1,
        },
        message_modulus: moduli,
        carry_modulus: moduli,
        max_degree: moduli * moduli - 1,
        max_noise_level: 5,
        ciphertext_modulus: NATIVE,
        pbs_order,
    }
}

fn zero_key(input: usize, output: usize) -> LweKeyswitchKey {
    LweKeyswitchKey {
        data: vec![0; input * 2 * (output + 1)],
        decomp_base_log: 4,
        decomp_level_count: 2,
        output_lwe_size: output + 1,
        ciphertext_modulus: NATIVE,
    }
}

fn input_ciphertext(size: usize, body: u64, moduli: usize) -> Ciphertext {
    let mut data = vec![0; size];
    data[size - 1] = body;
    Ciphertext {
        ct: LweCiphertext { data, ciphertext_modulus: NATIVE },
        degree: 13,
        noise_level: 1,
        message_modulus: moduli,
        carry_modulus: moduli,
        pbs_order: PBSOrder::KeyswitchBootstrap,
    }
}

/// Stands in for a table lookup: the body of the result is the body of the
/// input plus the value of the table at `tell`, so that a test sees which
/// table and which ciphertext were handed over.
fn lookup(tell: usize) -> impl Fn(&ServerKey, &Ciphertext, &LookupTable) -> Ciphertext {
    move |sks: &ServerKey, ct: &Ciphertext, acc: &LookupTable| {
        let mut data = ct.ct.data.clone();
        let last = data.len() - 1;
        data[last] = data[last].wrapping_add(acc.acc.data[sks.bootstrapping_key.polynomial_size + tell]);
        Ciphertext {
            ct: LweCiphertext { data, ciphertext_modulus: ct.ct.ciphertext_modulus },
            degree: acc.degree,
            noise_level: 1,
            message_modulus: sks.message_modulus,
            carry_modulus: sks.carry_modulus,
            pbs_order: sks.pbs_order,
        }
    }
}

/// Stands in for the bare bootstrap: a ciphertext of the size of the big key
/// whose body is the body of the input plus one.
fn bootstrap(sks: &ServerKey, ct: &LweCiphertext, _acc: &LookupTable) -> LweCiphertext {
    let mut data = vec![0; sks.bootstrapping_key.polynomial_size + 1];
    let last = data.len() - 1;
    data[last] = ct.data[ct.data.len() - 1] + 1;
    LweCiphertext { data, ciphertext_modulus: ct.ciphertext_modulus }
}

#[test]
fn a_cast_between_equal_sizes_only_switches_the_key() {
    let dest = server_key(3, 8, 4, PBSOrder::KeyswitchBootstrap);
    let key = zero_key(6, 8);
    let view = KeySwitchingKeyView::try_new(&key, &dest, None, 0, EncryptionKeyChoice::Big);
    let cast = view.cast(&input_ciphertext(7, 500, 4), &lookup(0), &bootstrap);
    assert_eq!(cast.ct.data, vec![0, 0, 0, 0, 0, 0, 0, 0, 500]);
    assert_eq!(cast.degree, 13);
    assert_eq!(cast.noise_level, usize::MAX);
    assert_eq!(cast.message_modulus, 4);
    assert_eq!(cast.pbs_order, PBSOrder::KeyswitchBootstrap);
}

#[test]
fn a_cast_to_more_bits_shifts_right_after_the_switch() {
    let dest = server_key(3, 16, 4, PBSOrder::KeyswitchBootstrap);
    let key = zero_key(6, 16);
    let owned = KeySwitchingKey::from_raw_parts(key, dest, None, 2, EncryptionKeyChoice::Big);
    // The table of the shift by two has the value one from input four on:
    // coefficient 4 of its body holds the encoded one.
    let cast = owned.cast(&input_ciphertext(7, 500, 2), &lookup(4), &bootstrap);
    let mut expected = vec![0u64; 17];
    expected[16] = 500 + (1u64 << 59);
    assert_eq!(cast.ct.data, expected);
    // The degree comes with the table: fifteen shifted by two.
    assert_eq!(cast.degree, 3);
    assert_eq!(cast.noise_level, 1);
}

#[test]
fn a_cast_to_fewer_bits_shifts_left_before_the_switch() {
    let src = server_key(3, 16, 4, PBSOrder::KeyswitchBootstrap);
    let dest = server_key(3, 8, 2, PBSOrder::KeyswitchBootstrap);
    let key = zero_key(16, 8);
    let view = KeySwitchingKeyView::try_new(&key, &dest, Some(&src), -2, EncryptionKeyChoice::Big);
    // The table of the source shifts left by two below sixteen: input one
    // gives four, found in coefficient 1 of the body.
    let cast = view.cast(&input_ciphertext(17, 500, 4), &lookup(1), &bootstrap);
    let mut expected = vec![0u64; 9];
    expected[8] = 500 + 4 * (1u64 << 59);
    assert_eq!(cast.ct.data, expected);
    // The table takes twelve at most, which is three in the fewer bits.
    assert_eq!(cast.degree, 3);
    assert_eq!(cast.noise_level, usize::MAX);
    assert_eq!(cast.message_modulus, 2);
}

#[test]
fn a_cast_to_the_key_that_the_destination_does_not_work_on_goes_one_step_further() {
    // The destination works on the small key and the cast arrives under the
    // big one: a key switch follows.
    let mut dest = server_key(3, 8, 4, PBSOrder::BootstrapKeyswitch);
    dest.key_switching_key.data = (1..=(8 * 2 * 4) as u64).collect();
    let key = zero_key(6, 8);
    let view = KeySwitchingKeyView::try_new(&key, &dest, None, 0, EncryptionKeyChoice::Big);
    let cast = view.cast(&input_ciphertext(7, 500, 4), &lookup(0), &bootstrap);
    assert_eq!(cast.ct.data, vec![0, 0, 0, 500]);
    assert_eq!(cast.degree, 13);
    assert_eq!(cast.noise_level, usize::MAX);
    assert_eq!(cast.pbs_order, PBSOrder::BootstrapKeyswitch);

    // The destination works on the big key and the cast arrives under the
    // small one: a bootstrap follows.
    let dest = server_key(3, 8, 4, PBSOrder::KeyswitchBootstrap);
    let key = zero_key(6, 3);
    let view = KeySwitchingKeyView::try_new(&key, &dest, None, 0, EncryptionKeyChoice::Small);
    let cast = view.cast(&input_ciphertext(7, 500, 4), &lookup(0), &bootstrap);
    assert_eq!(cast.ct.data, vec![0, 0, 0, 0, 0, 0, 0, 0, 501]);
    assert_eq!(cast.degree, 13);
    assert_eq!(cast.noise_level, 1);
    assert_eq!(cast.pbs_order, PBSOrder::KeyswitchBootstrap);
}

#[test]
fn trivial_ciphertexts_hold_the_encoded_value_in_the_body() {
    let sks = server_key(3, 8, 4, PBSOrder::KeyswitchBootstrap);
    let ct = sks.unchecked_create_trivial_with_lwe_size(5, 4);
    assert_eq!(ct.ct.data, vec![0, 0, 0, 5 * (1u64 << 59)]);
    assert_eq!(ct.degree, 5);
    assert_eq!(ct.noise_level, 0);
    assert_eq!(ct.message_modulus, 4);
    assert_eq!(ct.carry_modulus, 4);
    let reduced = sks.create_trivial(7);
    assert_eq!(reduced.ct.data.len(), 9);
    assert_eq!(reduced.ct.data[8], 3 * (1u64 << 59));
    assert_eq!(reduced.degree, 3);
    let small = server_key(3, 8, 4, PBSOrder::BootstrapKeyswitch).create_trivial(0);
    assert_eq!(small.ct.data, vec![0, 0, 0, 0]);
}

#[test]
fn a_cast_result_has_the_moduli_of_the_destination_whatever_the_lookup_returns() {
    let dest = server_key(3, 16, 4, PBSOrder::KeyswitchBootstrap);
    let key = zero_key(6, 16);
    let view = KeySwitchingKeyView::try_new(&key, &dest, None, 2, EncryptionKeyChoice::Big);
    // A lookup that returns moduli and an order of its own.
    let careless = |_sks: &ServerKey, ct: &Ciphertext, acc: &LookupTable| Ciphertext {
        ct: LweCiphertext { data: ct.ct.data.clone(), ciphertext_modulus: CiphertextModulus { inner: 12 } },
        degree: acc.degree,
        noise_level: 77,
        message_modulus: 99,
        carry_modulus: 98,
        pbs_order: PBSOrder::BootstrapKeyswitch,
    };
    let cast = view.cast(&input_ciphertext(7, 500, 2), &careless, &bootstrap);
    assert_eq!(cast.ct.data.len(), 17);
    assert_eq!(cast.ct.data[16], 500);
    assert_eq!(cast.ct.ciphertext_modulus, NATIVE);
    assert_eq!(cast.message_modulus, 4);
    assert_eq!(cast.carry_modulus, 4);
    assert_eq!(cast.pbs_order, PBSOrder::KeyswitchBootstrap);
    assert_eq!(cast.degree, 3);
    assert_eq!(cast.noise_level, 1);
}
