use fhe_graph::glwe_tensor_product::tensor_glwe_dimension;
use fhe_graph::key_switching_key::{check_power_of_two, check_raw_parts, ilog2};
use fhe_graph::parameter_search::{
    experiment_order, filter_b_l_limited, modulus_log2, search_space, unique_by_params_hash, BaseLevel, Params,
    ParamsHash,
};
use fhe_graph::list_compression::{
    comp_param_message_2_carry_2_ks_pbs_gaussian_2m64, comp_param_message_2_carry_2_ks_pbs_tuniform_2m64,
};
use fhe_graph::{
    glwe_tensor_product, BootstrappingKey, CiphertextModulus, ClientKey, ClientKeyParameters,
    CompressionParameters, DynamicDistribution, EncryptionKeyChoice, GlweCiphertext, KeyMismatch,
    KeySwitchingKey, KeySwitchingKeyView, LweKeyswitchKey, PBSOrder, SecretEncryptionKeyView, ServerKey,
    ShortintKeySwitchingParameters,
};

const NATIVE: CiphertextModulus = CiphertextModulus { inner: 0 };

/// A server key whose ciphertexts have `big` coefficients under the big key
/// and `small` under the small one.
fn server_key(small: usize, big: usize, pbs_order: PBSOrder, modulus: CiphertextModulus) -> ServerKey {
    ServerKey {
        key_switching_key: LweKeyswitchKey {
            data: vec![0; big * 2 * (small + 1)],
            decomp_base_log: 4,
            decomp_level_count: 2,
            output_lwe_size: small + 1,
            ciphertext_modulus: modulus,
        },
        bootstrapping_key: BootstrappingKey {
            input_lwe_dimension: small,
            glwe_size: 2,
            polynomial_size: big,
            decomp_base_log: 8,
            decomp_level_count: 1,
        },
        message_modulus: 4,
        carry_modulus: 4,
        max_degree: 15,
        max_noise_level: 5,
        ciphertext_modulus: modulus,
        pbs_order,
    }
}

/// A key switching key from `input` to `output` coefficients.
fn lwe_keyswitch_key(input: usize, output: usize, modulus: CiphertextModulus) -> LweKeyswitchKey {
    LweKeyswitchKey {
        data: (0..(input * 3 * (output + 1)) as u64).collect(),
        decomp_base_log: 5,
        decomp_level_count: 3,
        output_lwe_size: output + 1,
        ciphertext_modulus: modulus,
    }
}

#[test]
fn key_dimensions_follow_from_the_shape() {
    let key = lwe_keyswitch_key(6, 4, NATIVE);
    assert_eq!(key.input_key_lwe_dimension(), 6);
    assert_eq!(key.output_key_lwe_dimension(), 4);
    let big_first = server_key(3, 8, PBSOrder::KeyswitchBootstrap, NATIVE);
    assert_eq!(big_first.ciphertext_lwe_dimension(), 8);
    assert_eq!(big_first.lwe_dimension_of(EncryptionKeyChoice::Big), 8);
    assert_eq!(big_first.lwe_dimension_of(EncryptionKeyChoice::Small), 3);
    let small_first = server_key(3, 8, PBSOrder::BootstrapKeyswitch, NATIVE);
    assert_eq!(small_first.ciphertext_lwe_dimension(), 3);
    assert_eq!(EncryptionKeyChoice::Big.pbs_order(), PBSOrder::KeyswitchBootstrap);
    assert_eq!(EncryptionKeyChoice::Small.pbs_order(), PBSOrder::BootstrapKeyswitch);
}

#[test]
fn parts_that_fit_make_a_key() {
    let src = server_key(3, 8, PBSOrder::KeyswitchBootstrap, NATIVE);
    let dest = server_key(5, 16, PBSOrder::KeyswitchBootstrap, NATIVE);
    let key = lwe_keyswitch_key(8, 16, NATIVE);
    assert_eq!(check_raw_parts(&key, &dest, Some(&src), -1, EncryptionKeyChoice::Big), Ok(()));
    let view = KeySwitchingKeyView::try_new(&key, &dest, Some(&src), -1, EncryptionKeyChoice::Big);
    assert_eq!(view.cast_rshift, -1);
    assert_eq!(view.destination_key, EncryptionKeyChoice::Big);
    assert_eq!(view.key_switching_key.data.len(), 8 * 3 * 17);
    assert_eq!(view.src_server_key.unwrap().bootstrapping_key.polynomial_size, 8);

    let owned = KeySwitchingKey::from_raw_parts(key.clone(), dest.clone(), Some(src.clone()), -1, EncryptionKeyChoice::Big);
    let borrowed = owned.as_view();
    assert_eq!(borrowed.cast_rshift, -1);
    assert_eq!(borrowed.destination_key, EncryptionKeyChoice::Big);
    assert_eq!(borrowed.key_switching_key.data, key.data);
    assert_eq!(borrowed.dest_server_key.bootstrapping_key.polynomial_size, 16);
    assert!(borrowed.src_server_key.is_some());
    let (ksk, dest_back, src_back, cast_rshift, destination_key) = owned.into_raw_parts();
    assert_eq!(ksk.data, key.data);
    assert_eq!(dest_back.bootstrapping_key.polynomial_size, 16);
    assert_eq!(src_back.unwrap().bootstrapping_key.polynomial_size, 8);
    assert_eq!(cast_rshift, -1);
    assert_eq!(destination_key, EncryptionKeyChoice::Big);
}

#[test]
fn a_key_to_the_small_key_needs_the_small_dimension() {
    let dest = server_key(5, 16, PBSOrder::KeyswitchBootstrap, NATIVE);
    let key = lwe_keyswitch_key(8, 5, NATIVE);
    assert_eq!(check_raw_parts(&key, &dest, None, 0, EncryptionKeyChoice::Small), Ok(()));
    assert_eq!(
        check_raw_parts(&key, &dest, None, 0, EncryptionKeyChoice::Big),
        Err(KeyMismatch::DestinationLweDimension { server_key: 16, key_switching_key: 5 })
    );
}

#[test]
fn every_mismatch_is_reported_and_the_first_one_wins() {
    let other = CiphertextModulus { inner: 1 << 63 };
    let src = server_key(3, 8, PBSOrder::KeyswitchBootstrap, NATIVE);
    let dest = server_key(5, 16, PBSOrder::KeyswitchBootstrap, NATIVE);
    let key = lwe_keyswitch_key(8, 16, NATIVE);

    let short = lwe_keyswitch_key(7, 9, other);
    assert_eq!(
        check_raw_parts(&short, &dest, Some(&src), 0, EncryptionKeyChoice::Big),
        Err(KeyMismatch::SourceLweDimension { server_key: 8, key_switching_key: 7 })
    );
    let foreign_src = server_key(3, 8, PBSOrder::KeyswitchBootstrap, other);
    assert_eq!(
        check_raw_parts(&key, &dest, Some(&foreign_src), 0, EncryptionKeyChoice::Big),
        Err(KeyMismatch::SourceCiphertextModulus)
    );
    assert_eq!(
        check_raw_parts(&key, &dest, None, -1, EncryptionKeyChoice::Big),
        Err(KeyMismatch::NegativeShiftWithoutSourceKey)
    );
    let narrow = lwe_keyswitch_key(8, 9, other);
    assert_eq!(
        check_raw_parts(&narrow, &dest, Some(&src), 0, EncryptionKeyChoice::Big),
        Err(KeyMismatch::DestinationLweDimension { server_key: 16, key_switching_key: 9 })
    );
    let foreign_key = lwe_keyswitch_key(8, 16, other);
    assert_eq!(
        check_raw_parts(&foreign_key, &dest, Some(&src), 0, EncryptionKeyChoice::Big),
        Err(KeyMismatch::KeyCiphertextModulus)
    );
    assert_eq!(check_raw_parts(&key, &dest, None, 0, EncryptionKeyChoice::Big), Ok(()));
}

fn client_key(message_modulus: usize, carry_modulus: usize) -> ClientKey {
    ClientKey { parameters: ClientKeyParameters { message_modulus, carry_modulus } }
}

#[test]
fn a_new_key_shifts_by_the_difference_in_bits() {
    let src = server_key(3, 8, PBSOrder::KeyswitchBootstrap, NATIVE);
    let dest = server_key(5, 16, PBSOrder::KeyswitchBootstrap, NATIVE);
    let params = ShortintKeySwitchingParameters { ks_base_log: 5, ks_level: 3, destination_key: EncryptionKeyChoice::Big };
    // From one bit of message and one of carry to two and two.
    let up = KeySwitchingKey::new(
        (SecretEncryptionKeyView { message_modulus: 2, carry_modulus: 2 }, None),
        (&client_key(4, 4), &dest),
        params,
        lwe_keyswitch_key(8, 16, NATIVE),
    );
    assert_eq!(up.cast_rshift, 2);
    assert_eq!(up.destination_key, EncryptionKeyChoice::Big);
    assert!(up.src_server_key.is_none());
    assert_eq!(up.dest_server_key.bootstrapping_key.polynomial_size, 16);
    assert_eq!(up.key_switching_key.data.len(), 8 * 3 * 17);
    // And back down, which needs the source server key.
    let down = KeySwitchingKey::new(
        (SecretEncryptionKeyView { message_modulus: 4, carry_modulus: 4 }, Some(&src)),
        (&client_key(2, 2), &dest),
        ShortintKeySwitchingParameters { ks_base_log: 5, ks_level: 3, destination_key: EncryptionKeyChoice::Small },
        lwe_keyswitch_key(8, 5, NATIVE),
    );
    assert_eq!(down.cast_rshift, -2);
    assert_eq!(down.destination_key, EncryptionKeyChoice::Small);
    assert_eq!(down.src_server_key.unwrap().key_switching_key.data.len(), src.key_switching_key.data.len());
    let same = KeySwitchingKey::new(
        (SecretEncryptionKeyView { message_modulus: 8, carry_modulus: 2 }, None),
        (&client_key(4, 4), &dest),
        params,
        lwe_keyswitch_key(8, 16, NATIVE),
    );
    assert_eq!(same.cast_rshift, 0);
}

#[test]
fn powers_of_two_and_their_logarithms() {
    assert!(check_power_of_two(1));
    assert!(check_power_of_two(2));
    assert!(check_power_of_two(1 << 40));
    assert!(!check_power_of_two(0));
    assert!(!check_power_of_two(3));
    assert!(!check_power_of_two(12));
    assert!(!check_power_of_two(usize::MAX));
    assert_eq!(ilog2(1), 0);
    assert_eq!(ilog2(2), 1);
    assert_eq!(ilog2(3), 1);
    assert_eq!(ilog2(16), 4);
    assert_eq!(ilog2(usize::MAX), (usize::BITS - 1) as i8);
}

fn glwe(data: Vec<u64>, polynomial_size: usize) -> GlweCiphertext {
    GlweCiphertext { data, polynomial_size, ciphertext_modulus: NATIVE }
}

#[test]
fn the_tensor_product_lays_out_cross_square_and_linear_terms() {
    let lhs = glwe(vec![3, 5, 7, 11, 13, 17], 2);
    let rhs = glwe(vec![2, 4, 6, 8, 10, 12], 2);
    assert_eq!(lhs.glwe_size(), 3);
    let product = glwe_tensor_product(&lhs, &rhs, 4);
    assert_eq!(product.polynomial_size, 2);
    assert_eq!(product.ciphertext_modulus, NATIVE);
    assert_eq!(product.glwe_size(), 6);
    assert_eq!(
        product.data,
        vec![
            18446744073709551612,
            5,
            18446744073709551598,
            43,
            18446744073709551603,
            26,
            18446744073709551604,
            30,
            18446744073709551586,
            100,
            18446744073709551597,
            81
        ]
    );
}

#[test]
fn the_tensor_product_wraps_at_128_bits_before_it_scales() {
    let lhs = glwe(vec![u64::MAX, 1 << 63, 5, u64::MAX - 2], 2);
    let rhs = glwe(vec![u64::MAX - 1, 3, 1 << 62, 7], 2);
    let product = glwe_tensor_product(&lhs, &rhs, 1 << 10);
    assert_eq!(
        product.data,
        vec![
            18365679280416882688,
            36028797018963967,
            18415218876317958143,
            36028797018963968,
            18343161282280030208,
            18433233274827440128
        ]
    );
}

#[test]
fn the_tensor_product_of_bodies_alone_is_their_scaled_product() {
    // No mask at all: one polynomial, the body.
    let lhs = glwe(vec![6, 0, 0, 0], 4);
    let rhs = glwe(vec![0, 0, 0, 10], 4);
    let product = glwe_tensor_product(&lhs, &rhs, 3);
    assert_eq!(product.data, vec![0, 0, 0, 20]);
    let shifted = glwe_tensor_product(&rhs, &rhs, 1);
    // X^3 squared is X^6, which is -X^2.
    assert_eq!(shifted.data, vec![0, 0, u64::MAX - 99, 0]);
}

#[test]
fn compression_parameters_are_as_published() {
    let uniform = comp_param_message_2_carry_2_ks_pbs_tuniform_2m64();
    assert_eq!(
        uniform,
        CompressionParameters {
            br_level: 1,
            br_base_log: 25,
            packing_ks_level: 2,
            packing_ks_base_log: 8,
            packing_ks_polynomial_size: 256,
            packing_ks_glwe_dimension: 5,
            lwe_per_glwe: 256,
            storage_log_modulus: 12,
            packing_ks_key_noise_distribution: DynamicDistribution::TUniform { bound_log2: 36 },
        }
    );
    let gaussian = comp_param_message_2_carry_2_ks_pbs_gaussian_2m64();
    assert_eq!(gaussian.storage_log_modulus, 11);
    assert_eq!(gaussian.br_base_log, uniform.br_base_log);
    match gaussian.packing_ks_key_noise_distribution {
        DynamicDistribution::Gaussian { std_bits, mean_bits } => {
            assert_eq!(f64::from_bits(std_bits), 1.6173527465097522e-09);
            assert_eq!(f64::from_bits(mean_bits), 0.0);
        }
        DynamicDistribution::TUniform { .. } => panic!("the Gaussian parameters hold a Gaussian"),
    }
}

#[test]
fn base_and_level_pairs_are_kept_as_far_as_they_fit() {
    let kept = filter_b_l_limited(&[1, 2, 3], &[1, 5, 10, 11], 20);
    let pairs: Vec<(usize, usize)> = kept.iter().map(|pair| (pair.base, pair.level)).collect();
    // Base one keeps the multiples of five only; eleven levels are too many,
    // and three times ten digits do not fit twenty bits.
    assert_eq!(pairs, vec![(1, 5), (1, 10), (2, 1), (2, 5), (2, 10), (3, 1), (3, 5)]);
    assert_eq!(filter_b_l_limited(&[1, 2], &[], 20), Vec::<BaseLevel>::new());
    assert_eq!(filter_b_l_limited(&[], &[1, 2], 20), Vec::<BaseLevel>::new());
    assert_eq!(filter_b_l_limited(&[usize::MAX], &[2], usize::MAX), Vec::<BaseLevel>::new());
    assert_eq!(filter_b_l_limited(&[4], &[10], 40), vec![BaseLevel { base: 4, level: 10 }]);
    assert_eq!(filter_b_l_limited(&[4], &[10], 39), Vec::<BaseLevel>::new());

    let params = Params {
        lwe_dimension: 512,
        glwe_dimension: 1,
        polynomial_size: 2048,
        grouping_factor: 0,
        pbs_base_log: 23,
        pbs_level: 1,
        ks_base_log: 5,
        ks_level: 3,
    };
    let hash = ParamsHash::from(params);
    assert_eq!(
        hash,
        ParamsHash {
            lwe_dimension: 512,
            glwe_dimension: 1,
            polynomial_size: 2048,
            pbs_level: 1,
            ks_level: 3,
            ks_base_log_smaller_than_5: true,
        }
    );
    assert!(!ParamsHash::from(Params { ks_base_log: 6, ..params }).ks_base_log_smaller_than_5);
    assert_eq!(ParamsHash::from(Params { pbs_base_log: 2, grouping_factor: 3, ..params }), hash);

    assert_eq!(modulus_log2(0), 64);
    assert_eq!(modulus_log2(1), 0);
    assert_eq!(modulus_log2(1 << 63), 63);
    assert_eq!(modulus_log2((1 << 64) - (1 << 32) + 1), 63);
    assert_eq!(modulus_log2(u128::MAX), 127);
}

#[test]
fn the_search_space_runs_through_every_choice_the_last_one_fastest() {
    let pairs = vec![BaseLevel { base: 2, level: 3 }, BaseLevel { base: 4, level: 1 }];
    let points = search_space(&[7, 9, 11], &pairs);
    assert_eq!(points.len(), 9 * 5 * 7 * 3 * 2 * 2);
    assert_eq!(
        points[0],
        Params {
            lwe_dimension: 512,
            glwe_dimension: 1,
            polynomial_size: 256,
            grouping_factor: 7,
            pbs_base_log: 2,
            pbs_level: 3,
            ks_base_log: 2,
            ks_level: 3,
        }
    );
    assert_eq!((points[1].pbs_base_log, points[1].ks_base_log), (2, 4));
    assert_eq!((points[2].pbs_base_log, points[2].ks_base_log), (4, 2));
    assert_eq!((points[3].grouping_factor, points[4].grouping_factor), (7, 9));
    assert_eq!((points[11].polynomial_size, points[12].polynomial_size), (256, 512));
    assert_eq!((points[83].glwe_dimension, points[84].glwe_dimension), (1, 2));
    assert_eq!((points[419].lwe_dimension, points[420].lwe_dimension), (512, 576));
    assert_eq!((points[83].polynomial_size, points[83].grouping_factor), (16384, 11));
    assert_eq!(
        points[points.len() - 1],
        Params {
            lwe_dimension: 1024,
            glwe_dimension: 5,
            polynomial_size: 16384,
            grouping_factor: 11,
            pbs_base_log: 4,
            pbs_level: 1,
            ks_base_log: 4,
            ks_level: 1,
        }
    );
    assert!(search_space(&[], &pairs).is_empty());
    assert!(search_space(&[0], &Vec::new()).is_empty());
}

#[test]
fn of_parameter_sets_that_are_told_apart_by_nothing_the_first_is_kept() {
    let base = Params {
        lwe_dimension: 512,
        glwe_dimension: 1,
        polynomial_size: 2048,
        grouping_factor: 0,
        pbs_base_log: 23,
        pbs_level: 1,
        ks_base_log: 5,
        ks_level: 3,
    };
    let candidates = vec![
        base,
        Params { ks_base_log: 4, ..base },
        Params { ks_base_log: 6, ..base },
        Params { pbs_base_log: 2, ..base },
        Params { lwe_dimension: 576, ..base },
        Params { ks_base_log: 7, ..base },
        Params { lwe_dimension: 576, grouping_factor: 3, ..base },
    ];
    assert_eq!(unique_by_params_hash(&candidates), vec![0, 2, 4]);
    assert_eq!(unique_by_params_hash(&Vec::new()), Vec::<usize>::new());
    assert_eq!(unique_by_params_hash(&vec![base, base, base]), vec![0]);
}

#[test]
fn the_order_of_an_experiment_is_a_shuffle_that_never_changes() {
    let order = experiment_order(50).unwrap();
    let mut sorted = order.clone();
    sorted.sort();
    assert_eq!(sorted, (0..50).collect::<Vec<usize>>());
    assert_ne!(order, sorted);
    assert_eq!(experiment_order(50).unwrap(), order);
    assert_eq!(experiment_order(0).unwrap(), Vec::<usize>::new());
    assert_eq!(experiment_order(1).unwrap(), vec![0]);
    if usize::BITS > 32 {
        assert!(experiment_order(u32::MAX as usize + 1).is_none());
    }
}
