use fhe_graph::lut::{LookupTable, Luts};
use fhe_graph::{
    BootstrappingKey, Ciphertext, CiphertextModulus, IndexedCtAndLut, IndexedCtsAndLut, LweCiphertext,
    LweKeyswitchKey, Lut, PBSOrder, ServerKey, TermList,
};
use std::sync::Arc;

const NATIVE: CiphertextModulus = CiphertextModulus { inner: 0 };

fn server_key(message_modulus: usize, carry_modulus: usize, polynomial_size: usize) -> ServerKey {
    ServerKey {
        key_switching_key: LweKeyswitchKey {
            data: vec![0; 12],
            decomp_base_log: 4,
            decomp_level_count: 2,
            output_lwe_size: 3,
            ciphertext_modulus: NATIVE,
        },
        bootstrapping_key: BootstrappingKey {
            input_lwe_dimension: 2,
            glwe_size: 2,
            polynomial_size,
            decomp_base_log: 8,
            decomp_level_count: 2,
        },
        message_modulus,
        carry_modulus,
        max_degree: message_modulus * carry_modulus - 1,
        max_noise_level: 5,
        ciphertext_modulus: NATIVE,
        pbs_order: PBSOrder::KeyswitchBootstrap,
    }
}

fn ciphertext(data: Vec<u64>, degree: usize, noise_level: usize) -> Arc<Ciphertext> {
    Arc::new(Ciphertext {
        ct: LweCiphertext { data, ciphertext_modulus: NATIVE },
        degree,
        noise_level,
        message_modulus: 4,
        carry_modulus: 4,
        pbs_order: PBSOrder::KeyswitchBootstrap,
    })
}

fn task(terms: Vec<(u64, Arc<Ciphertext>)>) -> IndexedCtsAndLut {
    IndexedCtsAndLut { index: 7, cts_and_weights: TermList::from_vec(terms), lut: Lut::ExtractCarry }
}

#[test]
fn multisum_adds_the_weighted_ciphertexts() {
    let sks = server_key(4, 4, 16);
    let terms = vec![
        (3, ciphertext(vec![1, 2, u64::MAX], 2, 1)),
        (258, ciphertext(vec![10, 20, 30], 3, 2)),
        (256, ciphertext(vec![7, 8, 9], 1, 4)),
    ];
    let tasked = task(terms);
    assert!(tasked.is_summable());
    let sum = tasked.multisum(&sks);
    assert_eq!(sum.index, 7);
    assert_eq!(sum.lut, Lut::ExtractCarry);
    // Every weight counts as it stands, also above 255.
    assert_eq!(sum.ct.ct.data, vec![4375, 7214, 10041]);
    assert_eq!(sum.ct.degree, 3 * 2 + 258 * 3 + 256 * 1);
    assert_eq!(sum.ct.noise_level, 3 * 1 + 258 * 2 + 256 * 4);
    assert_eq!(sum.ct.message_modulus, 4);
    assert_eq!(sum.ct.carry_modulus, 4);
    assert_eq!(sum.ct.pbs_order, PBSOrder::KeyswitchBootstrap);
    assert_eq!(sum.ct.ct.ciphertext_modulus, NATIVE);
}

#[test]
fn multisum_does_not_depend_on_the_order_of_the_terms() {
    let sks = server_key(4, 4, 16);
    let a = ciphertext(vec![u64::MAX, 1 << 63, 12345], 2, 1);
    let b = ciphertext(vec![77, u64::MAX - 5, 1], 3, 2);
    let c = ciphertext(vec![1 << 62, 3, u64::MAX], 1, 1);
    let orders: Vec<Vec<(u64, Arc<Ciphertext>)>> = vec![
        vec![(5, a.clone()), (300, b.clone()), (17, c.clone())],
        vec![(17, c.clone()), (5, a.clone()), (300, b.clone())],
        vec![(300, b.clone()), (17, c.clone()), (5, a.clone())],
        vec![(300, b), (5, a), (17, c)],
    ];
    let sums: Vec<IndexedCtAndLut> = orders.into_iter().map(|terms| task(terms).multisum(&sks)).collect();
    for sum in sums.iter() {
        assert_eq!(sum.ct.ct.data, sums[0].ct.ct.data);
        assert_eq!(sum.ct.degree, sums[0].ct.degree);
        assert_eq!(sum.ct.noise_level, sums[0].ct.noise_level);
    }
    assert_eq!(sums[0].ct.degree, 5 * 2 + 300 * 3 + 17);
    assert_eq!(
        sums[0].ct.ct.data[2],
        5u64.wrapping_mul(12345).wrapping_add(300).wrapping_add(17u64.wrapping_mul(u64::MAX))
    );
}

#[test]
fn multisum_of_one_term_is_its_scalar_product() {
    let sks = server_key(4, 4, 16);
    let sum = task(vec![(2, ciphertext(vec![1 << 63, 5], usize::MAX, usize::MAX))]).multisum(&sks);
    assert_eq!(sum.ct.ct.data, vec![0, 10]);
    // Degree and noise level stop at the largest value.
    assert_eq!(sum.ct.degree, usize::MAX);
    assert_eq!(sum.ct.noise_level, usize::MAX);
}

#[test]
fn a_task_without_terms_or_with_terms_of_two_sizes_is_not_summable() {
    assert!(!task(vec![]).is_summable());
    assert!(!task(vec![(1, ciphertext(vec![1, 2], 1, 1)), (1, ciphertext(vec![1, 2, 3], 1, 1))]).is_summable());
    assert!(task(vec![(1, ciphertext(vec![1, 2], 1, 1)), (1, ciphertext(vec![3, 4], 1, 1))]).is_summable());
}

#[test]
fn scalar_products_wrap_around() {
    let sks = server_key(4, 4, 16);
    let ct = ciphertext(vec![u64::MAX, 1 << 63, 3], 2, 3);
    let tripled = sks.unchecked_scalar_mul(&ct, 3);
    assert_eq!(tripled.ct.data, vec![u64::MAX - 2, 1 << 63, 9]);
    assert_eq!(tripled.degree, 6);
    assert_eq!(tripled.noise_level, 9);
    let mut sum = sks.unchecked_scalar_mul(&ct, 0);
    assert_eq!(sum.ct.data, vec![0, 0, 0]);
    sks.unchecked_add_scalar_mul_assign(&mut sum, &ct, 255);
    assert_eq!(sum.ct.data, vec![u64::MAX - 254, 1 << 63, 765]);
    assert_eq!(sum.degree, 510);
    let large = sks.unchecked_scalar_mul(&ct, 1 << 32);
    assert_eq!(large.ct.data, vec![u64::MAX - (1 << 32) + 1, 0, 3 << 32]);
    if usize::BITS == 64 {
        assert_eq!(large.degree, 2 << 32);
        assert_eq!(large.noise_level, 3 << 32);
    }
    let largest = sks.unchecked_scalar_mul(&ct, u64::MAX);
    assert_eq!(largest.ct.data, vec![1, 1 << 63, u64::MAX - 2]);
    assert_eq!(largest.degree, usize::MAX);
}

#[test]
fn pbs_hands_the_sum_and_the_named_table_to_the_bootstrap() {
    let sks = server_key(2, 2, 8);
    let luts = Luts::new(&sks);
    let summed = IndexedCtAndLut {
        index: 3,
        ct: Ciphertext {
            ct: LweCiphertext { data: vec![4, 5], ciphertext_modulus: NATIVE },
            degree: 3,
            noise_level: 2,
            message_modulus: 2,
            carry_modulus: 2,
            pbs_order: PBSOrder::KeyswitchBootstrap,
        },
        lut: Lut::ExtractCarry,
    };
    // A stand-in for the bootstrap that shows what it was handed.
    let bootstrap = |ct: &Ciphertext, table: &LookupTable| Ciphertext {
        ct: LweCiphertext { data: vec![ct.ct.data[0] + ct.ct.data[1], table.acc.data[14]], ciphertext_modulus: NATIVE },
        degree: table.degree,
        noise_level: 1,
        message_modulus: ct.message_modulus,
        carry_modulus: ct.carry_modulus,
        pbs_order: ct.pbs_order,
    };
    let result = summed.pbs(&luts, &bootstrap);
    assert_eq!(result.index, 3);
    assert_eq!(result.ct.ct.data, vec![9, 0x2000_0000_0000_0000]);
    assert_eq!(result.ct.degree, 1);
}

#[test]
fn named_tables_take_the_values_of_their_functions() {
    let sks = server_key(4, 4, 64);
    assert_eq!(sks.tabulate(Lut::ExtractMessage), vec![0, 1, 2, 3, 0, 1, 2, 3, 0, 1, 2, 3, 0, 1, 2, 3]);
    assert_eq!(sks.tabulate(Lut::ExtractCarry), vec![0, 0, 0, 0, 1, 1, 1, 1, 2, 2, 2, 2, 3, 3, 3, 3]);
    assert_eq!(sks.tabulate(Lut::BivarMulLow), vec![0, 0, 0, 0, 0, 1, 2, 3, 0, 2, 0, 2, 0, 3, 2, 1]);
    assert_eq!(sks.tabulate(Lut::BivarMulHigh), vec![0, 0, 0, 0, 0, 0, 0, 0, 0, 0, 1, 1, 0, 0, 1, 2]);
    assert_eq!(
        sks.tabulate(Lut::PrefixSumCarryPropagation),
        vec![0, 0, 0, 0, 1, 1, 1, 1, 0, 1, 2, 3, 3, 3, 3, 3]
    );
    assert_eq!(
        sks.tabulate(Lut::DoesBlockGenerateCarry),
        vec![0, 0, 0, 0, 1, 1, 1, 1, 1, 1, 1, 1, 1, 1, 1, 1]
    );
    assert_eq!(
        sks.tabulate(Lut::DoesBlockGenerateOrPropagate),
        vec![0, 0, 0, 2, 1, 1, 1, 1, 1, 1, 1, 1, 1, 1, 1, 1]
    );
    assert_eq!(Lut::BivarMulLow.evaluate(4, 11), 2);
    assert_eq!(Lut::BivarMulHigh.evaluate(4, 15), 2);
    assert_eq!(Lut::ExtractCarry.evaluate(1, 9), 9);
    assert_eq!(Lut::DoesBlockGenerateOrPropagate.evaluate(1, 0), 2);
}

#[test]
fn an_accumulator_holds_its_boxes_rotated_by_half_a_box() {
    let sks = server_key(2, 2, 8);
    let table = sks.generate_lookup_table(&vec![3, 1, 2, 0]);
    assert_eq!(table.degree, 3);
    assert_eq!(table.acc.polynomial_size, 8);
    assert_eq!(table.acc.ciphertext_modulus, NATIVE);
    assert_eq!(
        table.acc.data,
        vec![
            0,
            0,
            0,
            0,
            0,
            0,
            0,
            0,
            0x6000_0000_0000_0000,
            0x2000_0000_0000_0000,
            0x2000_0000_0000_0000,
            0x4000_0000_0000_0000,
            0x4000_0000_0000_0000,
            0,
            0,
            0xa000_0000_0000_0000
        ]
    );
}

#[test]
fn an_accumulator_leaves_what_no_box_covers_at_zero() {
    let mut sks = server_key(3, 1, 8);
    let table = sks.generate_lookup_table(&vec![3, 1, 2]);
    assert_eq!(
        table.acc.data[8..],
        [
            0x7fff_ffff_ffff_fffe,
            0x2aaa_aaaa_aaaa_aaaa,
            0x2aaa_aaaa_aaaa_aaaa,
            0x5555_5555_5555_5554,
            0x5555_5555_5555_5554,
            0,
            0,
            0x8000_0000_0000_0002
        ]
    );
    // Boxes of one coefficient are not rotated at all.
    sks = server_key(2, 1, 3);
    let table = sks.generate_lookup_table(&vec![1, 0]);
    assert_eq!(table.acc.data, vec![0, 0, 0, 0x4000_0000_0000_0000, 0, 0]);
    // More values than coefficients: no box at all.
    sks = server_key(4, 4, 8);
    let table = sks.generate_lookup_table(&sks.tabulate(Lut::ExtractMessage));
    assert_eq!(table.acc.data, vec![0; 16]);
    assert_eq!(table.degree, 3);
}

#[test]
fn luts_holds_one_table_for_every_name() {
    let sks = server_key(2, 2, 16);
    let luts = Luts::new(&sks);
    let carry = luts.get(Lut::ExtractCarry);
    assert_eq!(carry.degree, 1);
    let mut expected = vec![0u64; 32];
    for coefficient in expected[22..30].iter_mut() {
        *coefficient = 0x2000_0000_0000_0000;
    }
    assert_eq!(carry.acc.data, expected);
    assert_eq!(luts.get(Lut::ExtractMessage).acc.data, luts.extract_message.acc.data);
    assert_eq!(luts.get(Lut::BivarMulLow).acc.data, sks.generate_lookup_table(&vec![0, 0, 0, 1]).acc.data);
    assert_eq!(luts.get(Lut::BivarMulHigh).acc.data, sks.generate_lookup_table(&vec![0, 0, 0, 0]).acc.data);
    assert_eq!(
        luts.get(Lut::PrefixSumCarryPropagation).acc.data,
        sks.generate_lookup_table(&vec![0, 0, 1, 1]).acc.data
    );
    assert_eq!(
        luts.get(Lut::DoesBlockGenerateCarry).acc.data,
        sks.generate_lookup_table(&vec![0, 0, 1, 1]).acc.data
    );
    assert_eq!(
        luts.get(Lut::DoesBlockGenerateOrPropagate).acc.data,
        sks.generate_lookup_table(&vec![0, 2, 1, 1]).acc.data
    );
    assert_eq!(luts.get(Lut::DoesBlockGenerateOrPropagate).degree, 2);
}

#[test]
fn a_term_list_keeps_its_terms_in_order() {
    let mut list = TermList::new();
    assert_eq!(list.len(), 0);
    assert!(list.get(0).is_none());
    // More terms than are kept without an allocation.
    for weight in 0..8u64 {
        list.push((weight, ciphertext(vec![weight * 10], 1, 1)));
    }
    assert_eq!(list.len(), 8);
    for position in 0..8usize {
        let term = list.get(position).unwrap();
        assert_eq!(term.0, position as u64);
        assert_eq!(term.1.ct.data, vec![position as u64 * 10]);
    }
    assert!(list.get(8).is_none());
    let copied = TermList::from_vec(list.to_vec());
    assert_eq!(copied.len(), 8);
    assert_eq!(copied.get(7).unwrap().0, 7);
    assert_eq!(copied.to_vec().iter().map(|term| term.0).collect::<Vec<u64>>(), vec![0, 1, 2, 3, 4, 5, 6, 7]);
}

#[test]
fn a_weight_above_255_counts_in_full() {
    let sks = server_key(4, 4, 16);
    let sum = task(vec![(256, ciphertext(vec![1, 0], 1, 1))]).multisum(&sks);
    assert_eq!(sum.ct.ct.data, vec![256, 0]);
    assert_eq!(sum.ct.degree, 256);
    assert_eq!(sum.ct.noise_level, 256);
    let two = task(vec![(1000, ciphertext(vec![3, 1], 2, 1)), (65536, ciphertext(vec![1, 1], 1, 3))]).multisum(&sks);
    assert_eq!(two.ct.ct.data, vec![68536, 66536]);
    assert_eq!(two.ct.degree, 2000 + 65536);
    assert_eq!(two.ct.noise_level, 1000 + 3 * 65536);
    let zero = task(vec![(0, ciphertext(vec![3, 1], 2, 1)), (1, ciphertext(vec![5, 6], 1, 3))]).multisum(&sks);
    assert_eq!(zero.ct.ct.data, vec![5, 6]);
    assert_eq!(zero.ct.degree, 1);
}
