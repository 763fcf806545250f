//! Shortint ciphertexts as the scheduler and the integer arithmetic see them.

use std::sync::Arc;
use vstd::prelude::*;

verus! {

/// Which half of a programmable bootstrap comes first for a ciphertext.
#[derive(Clone, Copy, Debug, PartialEq, Eq, Structural)]
pub enum PBSOrder {
    KeyswitchBootstrap,
    BootstrapKeyswitch,
}

/// The modulus that ciphertext coefficients live in; `inner == 0` is the
/// native modulus `2^64`.
#[derive(Clone, Copy, Debug, PartialEq, Eq, Structural)]
pub struct CiphertextModulus {
    pub inner: u128,
}

impl CiphertextModulus {
    /// The native modulus `2^64`.
    pub fn new_native() -> (r: Self)
        ensures
            r.inner == 0,
    {
        CiphertextModulus { inner: 0 }
    }

    /// Tells whether this is the native modulus.
    pub fn is_native_modulus(&self) -> (r: bool)
        ensures
            r == (self.inner == 0),
    {
        self.inner == 0
    }
}

/// An LWE ciphertext: the mask coefficients followed by the body.
pub struct LweCiphertext {
    pub data: Vec<u64>,
    pub ciphertext_modulus: CiphertextModulus,
}

impl Clone for LweCiphertext {
    fn clone(&self) -> (r: Self)
        ensures
            r.data@ == self.data@,
            r.ciphertext_modulus == self.ciphertext_modulus,
    {
        let data = self.data.clone();
        proof {
            assert(data@ =~= self.data@);
        }
        LweCiphertext { data, ciphertext_modulus: self.ciphertext_modulus }
    }
}

/// A shortint ciphertext with the bookkeeping that travels with it.
pub struct Ciphertext {
    pub ct: LweCiphertext,
    pub degree: usize,
    pub noise_level: usize,
    pub message_modulus: usize,
    pub carry_modulus: usize,
    pub pbs_order: PBSOrder,
}

/// Noise level of a trivial encryption.
pub const NOISE_LEVEL_ZERO: usize = 0;

/// Noise level right after a bootstrap.
pub const NOISE_LEVEL_NOMINAL: usize = 1;

/// Noise level of a ciphertext whose history is not tracked.
pub const NOISE_LEVEL_UNKNOWN: usize = usize::MAX;

/// `Arc::clone`: a second handle on the same allocation, so the value behind
/// the result is the value behind `handle`.
#[verifier::external_body]
pub(crate) fn share(handle: &Arc<Ciphertext>) -> (shared: Arc<Ciphertext>)
    ensures
        shared == *handle,
{
    Arc::clone(handle)
}

} // verus!
