//! Server keys and client parameters, as far as their shape and their
//! integer key material go.

use crate::ciphertext::{CiphertextModulus, PBSOrder};
use vstd::prelude::*;

verus! {

/// Under which of the two keys of a parameter set a ciphertext is encrypted.
#[derive(Clone, Copy, Debug, PartialEq, Eq, Structural)]
pub enum EncryptionKeyChoice {
    Big,
    Small,
}

impl EncryptionKeyChoice {
    /// The bootstrap order of a server key whose ciphertexts are under this
    /// key.
    pub open spec fn spec_pbs_order(&self) -> PBSOrder {
        match self {
            EncryptionKeyChoice::Big => PBSOrder::KeyswitchBootstrap,
            EncryptionKeyChoice::Small => PBSOrder::BootstrapKeyswitch,
        }
    }

    /// The bootstrap order of a server key whose ciphertexts are under this
    /// key.
    #[verifier::when_used_as_spec(spec_pbs_order)]
    pub fn pbs_order(&self) -> (r: PBSOrder)
        ensures
            r == self.spec_pbs_order(),
    {
        match self {
            EncryptionKeyChoice::Big => PBSOrder::KeyswitchBootstrap,
            EncryptionKeyChoice::Small => PBSOrder::BootstrapKeyswitch,
        }
    }
}

/// What a key switching key is, apart from where its coefficients are kept.
pub struct LweKeyswitchKeySpec {
    pub data: Seq<u64>,
    pub decomp_base_log: usize,
    pub decomp_level_count: usize,
    pub output_lwe_size: usize,
    pub ciphertext_modulus: CiphertextModulus,
}

/// An LWE key switching key: for every coefficient of the input key and every
/// decomposition level, one LWE ciphertext under the output key.
pub struct LweKeyswitchKey {
    pub data: Vec<u64>,
    pub decomp_base_log: usize,
    pub decomp_level_count: usize,
    pub output_lwe_size: usize,
    pub ciphertext_modulus: CiphertextModulus,
}

impl View for LweKeyswitchKey {
    type V = LweKeyswitchKeySpec;

    open spec fn view(&self) -> LweKeyswitchKeySpec {
        LweKeyswitchKeySpec {
            data: self.data@,
            decomp_base_log: self.decomp_base_log,
            decomp_level_count: self.decomp_level_count,
            output_lwe_size: self.output_lwe_size,
            ciphertext_modulus: self.ciphertext_modulus,
        }
    }
}

impl LweKeyswitchKeySpec {
    /// The number of coefficients that encrypt one coefficient of the input
    /// key.
    pub open spec fn input_key_element_encrypted_size(self) -> int {
        self.decomp_level_count * self.output_lwe_size
    }

    /// The coefficients split evenly into one block per coefficient of the
    /// input key, and the block size is a positive `usize`.
    pub open spec fn wf(self) -> bool {
        &&& self.output_lwe_size >= 1
        &&& self.decomp_level_count >= 1
        &&& self.input_key_element_encrypted_size() <= usize::MAX
        &&& self.data.len() % (self.input_key_element_encrypted_size() as nat) == 0
    }

    /// The dimension of the key that ciphertexts are switched from.
    pub open spec fn input_key_lwe_dimension(self) -> int {
        self.data.len() as int / self.input_key_element_encrypted_size()
    }

    /// The dimension of the key that ciphertexts are switched to.
    pub open spec fn output_key_lwe_dimension(self) -> int {
        self.output_lwe_size - 1
    }
}

impl LweKeyswitchKey {
    /// The dimension of the key that ciphertexts are switched from.
    pub fn input_key_lwe_dimension(&self) -> (r: usize)
        requires
            self@.wf(),
        ensures
            r == self@.input_key_lwe_dimension(),
    {
        proof {
            assert(self.decomp_level_count * self.output_lwe_size >= 1) by (nonlinear_arith)
                requires
                    self.decomp_level_count >= 1,
                    self.output_lwe_size >= 1,
            ;
        }
        self.data.len() / (self.decomp_level_count * self.output_lwe_size)
    }

    /// The dimension of the key that ciphertexts are switched to.
    pub fn output_key_lwe_dimension(&self) -> (r: usize)
        requires
            self@.wf(),
        ensures
            r == self@.output_key_lwe_dimension(),
    {
        self.output_lwe_size - 1
    }

    /// The modulus of the coefficients of the key.
    pub fn ciphertext_modulus(&self) -> (r: CiphertextModulus)
        ensures
            r == self.ciphertext_modulus,
    {
        self.ciphertext_modulus
    }
}

impl Clone for LweKeyswitchKey {
    fn clone(&self) -> (r: Self)
        ensures
            r@ == self@,
    {
        let data = self.data.clone();
        proof {
            assert(data@ =~= self.data@);
        }
        LweKeyswitchKey {
            data,
            decomp_base_log: self.decomp_base_log,
            decomp_level_count: self.decomp_level_count,
            output_lwe_size: self.output_lwe_size,
            ciphertext_modulus: self.ciphertext_modulus,
        }
    }
}

/// The shape of a bootstrapping key.  Its coefficients live in the Fourier
/// domain and stay with whoever runs the bootstrap.
#[derive(Clone, Copy, Debug, PartialEq, Eq, Structural)]
pub struct BootstrappingKey {
    pub input_lwe_dimension: usize,
    pub glwe_size: usize,
    pub polynomial_size: usize,
    pub decomp_base_log: usize,
    pub decomp_level_count: usize,
}

impl BootstrappingKey {
    /// The dimension of the LWE key that a bootstrap arrives under: the
    /// coefficients of all mask polynomials.
    pub open spec fn spec_output_lwe_dimension(&self) -> int {
        (self.glwe_size - 1) * self.polynomial_size
    }

    /// There is a body polynomial, and the output dimension is a `usize`.
    pub open spec fn wf(&self) -> bool {
        &&& self.glwe_size >= 1
        &&& self.spec_output_lwe_dimension() < usize::MAX
        &&& self.input_lwe_dimension < usize::MAX
    }

    /// The dimension of the LWE key that a bootstrap starts from.
    pub fn input_lwe_dimension(&self) -> (r: usize)
        ensures
            r == self.input_lwe_dimension,
    {
        self.input_lwe_dimension
    }

    /// The dimension of the LWE key that a bootstrap arrives under: the
    /// coefficients of all mask polynomials.
    pub fn output_lwe_dimension(&self) -> (r: usize)
        requires
            self.wf(),
        ensures
            r == self.spec_output_lwe_dimension(),
    {
        (self.glwe_size - 1) * self.polynomial_size
    }
}

/// What a server key is, apart from where its coefficients are kept.
pub struct ServerKeySpec {
    pub key_switching_key: LweKeyswitchKeySpec,
    pub bootstrapping_key: BootstrappingKey,
    pub message_modulus: usize,
    pub carry_modulus: usize,
    pub max_degree: usize,
    pub max_noise_level: usize,
    pub ciphertext_modulus: CiphertextModulus,
    pub pbs_order: PBSOrder,
}

/// The public key material of one parameter set.
pub struct ServerKey {
    pub key_switching_key: LweKeyswitchKey,
    pub bootstrapping_key: BootstrappingKey,
    pub message_modulus: usize,
    pub carry_modulus: usize,
    pub max_degree: usize,
    pub max_noise_level: usize,
    pub ciphertext_modulus: CiphertextModulus,
    pub pbs_order: PBSOrder,
}

impl View for ServerKey {
    type V = ServerKeySpec;

    open spec fn view(&self) -> ServerKeySpec {
        ServerKeySpec {
            key_switching_key: self.key_switching_key@,
            bootstrapping_key: self.bootstrapping_key,
            message_modulus: self.message_modulus,
            carry_modulus: self.carry_modulus,
            max_degree: self.max_degree,
            max_noise_level: self.max_noise_level,
            ciphertext_modulus: self.ciphertext_modulus,
            pbs_order: self.pbs_order,
        }
    }
}

impl ServerKeySpec {
    /// Both keys are sound.
    pub open spec fn wf(self) -> bool {
        self.key_switching_key.wf() && self.bootstrapping_key.wf()
    }

    /// The dimension of the ciphertexts that this key works on.
    pub open spec fn ciphertext_lwe_dimension(self) -> int {
        match self.pbs_order {
            PBSOrder::KeyswitchBootstrap => self.key_switching_key.input_key_lwe_dimension(),
            PBSOrder::BootstrapKeyswitch => self.key_switching_key.output_key_lwe_dimension(),
        }
    }

    /// The dimension of the ciphertexts under the key that `choice` names.
    pub open spec fn lwe_dimension_of(self, choice: EncryptionKeyChoice) -> int {
        match choice {
            EncryptionKeyChoice::Big => self.bootstrapping_key.spec_output_lwe_dimension(),
            EncryptionKeyChoice::Small => self.bootstrapping_key.input_lwe_dimension as int,
        }
    }
}

impl ServerKey {
    /// The dimension of the ciphertexts that this key works on.
    pub fn ciphertext_lwe_dimension(&self) -> (r: usize)
        requires
            self@.wf(),
        ensures
            r == self@.ciphertext_lwe_dimension(),
    {
        match self.pbs_order {
            PBSOrder::KeyswitchBootstrap => self.key_switching_key.input_key_lwe_dimension(),
            PBSOrder::BootstrapKeyswitch => self.key_switching_key.output_key_lwe_dimension(),
        }
    }

    /// The dimension of the ciphertexts under the key that `choice` names.
    pub fn lwe_dimension_of(&self, choice: EncryptionKeyChoice) -> (r: usize)
        requires
            self@.wf(),
        ensures
            r == self@.lwe_dimension_of(choice),
    {
        match choice {
            EncryptionKeyChoice::Big => self.bootstrapping_key.output_lwe_dimension(),
            EncryptionKeyChoice::Small => self.bootstrapping_key.input_lwe_dimension(),
        }
    }
}

impl Clone for ServerKey {
    fn clone(&self) -> (r: Self)
        ensures
            r@ == self@,
    {
        ServerKey {
            key_switching_key: self.key_switching_key.clone(),
            bootstrapping_key: self.bootstrapping_key,
            message_modulus: self.message_modulus,
            carry_modulus: self.carry_modulus,
            max_degree: self.max_degree,
            max_noise_level: self.max_noise_level,
            ciphertext_modulus: self.ciphertext_modulus,
            pbs_order: self.pbs_order,
        }
    }
}

/// The message and carry moduli that a client key encrypts with.
#[derive(Clone, Copy, Debug, PartialEq, Eq, Structural)]
pub struct ClientKeyParameters {
    pub message_modulus: usize,
    pub carry_modulus: usize,
}

/// The parameters of a client key.  The secret key itself stays outside: no
/// function here reads it.
#[derive(Clone, Copy, Debug, PartialEq, Eq, Structural)]
pub struct ClientKey {
    pub parameters: ClientKeyParameters,
}

/// The parameters of the secret key that ciphertexts are switched from.
#[derive(Clone, Copy, Debug, PartialEq, Eq, Structural)]
pub struct SecretEncryptionKeyView {
    pub message_modulus: usize,
    pub carry_modulus: usize,
}

/// How a key switching key between two parameter sets is to be made.
#[derive(Clone, Copy, Debug, PartialEq, Eq, Structural)]
pub struct ShortintKeySwitchingParameters {
    pub ks_base_log: usize,
    pub ks_level: usize,
    pub destination_key: EncryptionKeyChoice,
}

} // verus!
