//! Parameters of the compression of ciphertext lists.

use vstd::prelude::*;

verus! {

/// The distribution that the noise of fresh key material is drawn from.
#[derive(Clone, Copy, Debug, PartialEq, Eq, Structural)]
pub enum DynamicDistribution {
    /// A Gaussian, given by the bit patterns of its standard deviation and
    /// its mean as IEEE 754 doubles.
    Gaussian { std_bits: u64, mean_bits: u64 },
    /// The uniform distribution on the integers from `-2^bound_log2` to
    /// `2^bound_log2`, the two ends with half the weight of the others.
    TUniform { bound_log2: u32 },
}

impl DynamicDistribution {
    /// The uniform distribution on the integers from `-2^bound_log2` to
    /// `2^bound_log2`.
    pub fn new_t_uniform(bound_log2: u32) -> (r: Self)
        ensures
            r == (DynamicDistribution::TUniform { bound_log2 }),
    {
        DynamicDistribution::TUniform { bound_log2 }
    }

    /// A centred Gaussian with the standard deviation whose bit pattern is
    /// `std_bits`.
    pub fn new_gaussian_from_std_dev_bits(std_bits: u64) -> (r: Self)
        ensures
            r == (DynamicDistribution::Gaussian { std_bits, mean_bits: 0 }),
    {
        DynamicDistribution::Gaussian { std_bits, mean_bits: 0 }
    }
}

/// How a list of ciphertexts is packed for storage and unpacked again.
#[derive(Clone, Copy, Debug, PartialEq, Eq, Structural)]
pub struct CompressionParameters {
    pub br_level: usize,
    pub br_base_log: usize,
    pub packing_ks_level: usize,
    pub packing_ks_base_log: usize,
    pub packing_ks_polynomial_size: usize,
    pub packing_ks_glwe_dimension: usize,
    pub lwe_per_glwe: usize,
    pub storage_log_modulus: usize,
    pub packing_ks_key_noise_distribution: DynamicDistribution,
}

/// The bit pattern of the standard deviation `1.6173527465097522e-09`.
pub const GAUSSIAN_2M64_STD_DEV_BITS: u64 = 0x3e1b_c931_4e7f_1b47;

/// Compression for two bits of message and two of carry, with noise from a
/// uniform distribution, at a failure probability of `2^-64`.
pub fn comp_param_message_2_carry_2_ks_pbs_tuniform_2m64() -> (r: CompressionParameters)
    ensures
        r == (CompressionParameters {
            br_level: 1,
            br_base_log: 25,
            packing_ks_level: 2,
            packing_ks_base_log: 8,
            packing_ks_polynomial_size: 256,
            packing_ks_glwe_dimension: 5,
            lwe_per_glwe: 256,
            storage_log_modulus: 12,
            packing_ks_key_noise_distribution: DynamicDistribution::TUniform { bound_log2: 36 },
        }),
{
    CompressionParameters {
        br_level: 1,
        br_base_log: 25,
        packing_ks_level: 2,
        packing_ks_base_log: 8,
        packing_ks_polynomial_size: 256,
        packing_ks_glwe_dimension: 5,
        lwe_per_glwe: 256,
        storage_log_modulus: 12,
        packing_ks_key_noise_distribution: DynamicDistribution::new_t_uniform(36),
    }
}

/// Compression for two bits of message and two of carry, with Gaussian
/// noise, at a failure probability of `2^-64`.
pub fn comp_param_message_2_carry_2_ks_pbs_gaussian_2m64() -> (r: CompressionParameters)
    ensures
        r == (CompressionParameters {
            br_level: 1,
            br_base_log: 25,
            packing_ks_level: 2,
            packing_ks_base_log: 8,
            packing_ks_polynomial_size: 256,
            packing_ks_glwe_dimension: 5,
            lwe_per_glwe: 256,
            storage_log_modulus: 11,
            packing_ks_key_noise_distribution: DynamicDistribution::Gaussian {
                std_bits: GAUSSIAN_2M64_STD_DEV_BITS,
                mean_bits: 0,
            },
        }),
{
    CompressionParameters {
        br_level: 1,
        br_base_log: 25,
        packing_ks_level: 2,
        packing_ks_base_log: 8,
        packing_ks_polynomial_size: 256,
        packing_ks_glwe_dimension: 5,
        lwe_per_glwe: 256,
        storage_log_modulus: 11,
        packing_ks_key_noise_distribution: DynamicDistribution::new_gaussian_from_std_dev_bits(
            GAUSSIAN_2M64_STD_DEV_BITS,
        ),
    }
}

} // verus!
