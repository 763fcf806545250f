//! Keys that carry a ciphertext from one parameter set to another.

use crate::server_key::{
    ClientKey, EncryptionKeyChoice, LweKeyswitchKey, LweKeyswitchKeySpec, SecretEncryptionKeyView,
    ServerKey, ServerKeySpec, ShortintKeySwitchingParameters,
};
use vstd::prelude::*;

verus! {

/// `x` is a power of two.
pub open spec fn is_power_of_two(x: nat) -> bool
    decreases x,
{
    x == 1 || (x > 1 && x % 2 == 0 && is_power_of_two(x / 2))
}

/// The number of times `x` can be halved before it reaches one.
pub open spec fn log2_floor(x: nat) -> nat
    decreases x,
{
    if x <= 1 {
        0
    } else {
        1 + log2_floor(x / 2)
    }
}

/// Halving at most 63 times brings a 64-bit number down to one.
pub proof fn lemma_log2_floor_bound(x: nat, bound: nat)
    requires
        x < vstd::arithmetic::power2::pow2(bound),
    ensures
        log2_floor(x) < bound || (x <= 1 && bound == 0),
    decreases x,
{
    vstd::arithmetic::power2::lemma2_to64();
    if x > 1 {
        if bound == 0 {
            assert(false);
        } else {
            vstd::arithmetic::power2::lemma_pow2_unfold(bound);
            lemma_log2_floor_bound(x / 2, (bound - 1) as nat);
            if bound == 1 {
                assert(x / 2 <= 1);
            }
        }
    } else if bound > 0 {
    }
}

/// Tells whether `x` is a power of two.
pub fn check_power_of_two(x: usize) -> (r: bool)
    ensures
        r == is_power_of_two(x as nat),
{
    let mut y: usize = x;
    while y > 1
        invariant
            is_power_of_two(y as nat) == is_power_of_two(x as nat),
        decreases y,
    {
        if y % 2 != 0 {
            return false;
        }
        y = y / 2;
    }
    y == 1
}

/// The binary logarithm of `x`, rounded down.
pub fn ilog2(x: usize) -> (r: i8)
    ensures
        r == log2_floor(x as nat),
        0 <= r <= 63,
{
    proof {
        vstd::arithmetic::power2::lemma2_to64();
        lemma_log2_floor_bound(x as nat, 64);
    }
    let mut y: usize = x;
    let mut bits: i8 = 0;
    while y > 1
        invariant
            0 <= bits,
            bits + log2_floor(y as nat) == log2_floor(x as nat),
            log2_floor(x as nat) <= 63,
        decreases y,
    {
        y = y / 2;
        bits = bits + 1;
    }
    bits
}

/// The first reason, in the order in which the parts are looked at, why the
/// parts of a key switching key do not fit each other.
#[derive(Clone, Copy, Debug, PartialEq, Eq, Structural)]
pub enum KeyMismatch {
    /// The ciphertexts of the source server key have another dimension than
    /// the key switching key takes.
    SourceLweDimension { server_key: usize, key_switching_key: usize },
    /// The source and destination server keys differ in ciphertext modulus.
    SourceCiphertextModulus,
    /// A shift to a smaller modulus without a source server key.
    NegativeShiftWithoutSourceKey,
    /// The key switching key arrives at another dimension than the chosen key
    /// of the destination server key has.
    DestinationLweDimension { server_key: usize, key_switching_key: usize },
    /// The key switching key and the destination server key differ in
    /// ciphertext modulus.
    KeyCiphertextModulus,
}

/// What `check_raw_parts` finds: the first mismatch, if there is one.
pub open spec fn first_mismatch(
    key_switching_key: LweKeyswitchKeySpec,
    dest_server_key: ServerKeySpec,
    src_server_key: Option<ServerKeySpec>,
    cast_rshift: i8,
    destination_key: EncryptionKeyChoice,
) -> Option<KeyMismatch> {
    if src_server_key matches Some(src) && src.ciphertext_lwe_dimension() != key_switching_key.input_key_lwe_dimension() {
        Some(
            KeyMismatch::SourceLweDimension {
                server_key: src_server_key->Some_0.ciphertext_lwe_dimension() as usize,
                key_switching_key: key_switching_key.input_key_lwe_dimension() as usize,
            },
        )
    } else if src_server_key matches Some(src) && src.ciphertext_modulus != dest_server_key.ciphertext_modulus {
        Some(KeyMismatch::SourceCiphertextModulus)
    } else if src_server_key is None && cast_rshift < 0 {
        Some(KeyMismatch::NegativeShiftWithoutSourceKey)
    } else if dest_server_key.lwe_dimension_of(destination_key) != key_switching_key.output_key_lwe_dimension() {
        Some(
            KeyMismatch::DestinationLweDimension {
                server_key: dest_server_key.lwe_dimension_of(destination_key) as usize,
                key_switching_key: key_switching_key.output_key_lwe_dimension() as usize,
            },
        )
    } else if key_switching_key.ciphertext_modulus != dest_server_key.ciphertext_modulus {
        Some(KeyMismatch::KeyCiphertextModulus)
    } else {
        None
    }
}

/// The parts of a key switching key fit each other: dimensions and moduli
/// agree along the way from the source key through the key switching key to
/// the destination key, and a shift to a smaller modulus comes with the
/// source server key that it needs.
pub open spec fn raw_parts_compatible(
    key_switching_key: LweKeyswitchKeySpec,
    dest_server_key: ServerKeySpec,
    src_server_key: Option<ServerKeySpec>,
    cast_rshift: i8,
    destination_key: EncryptionKeyChoice,
) -> bool {
    &&& match src_server_key {
        Some(src) => {
            &&& src.ciphertext_lwe_dimension() == key_switching_key.input_key_lwe_dimension()
            &&& src.ciphertext_modulus == dest_server_key.ciphertext_modulus
        },
        None => cast_rshift >= 0,
    }
    &&& dest_server_key.lwe_dimension_of(destination_key) == key_switching_key.output_key_lwe_dimension()
    &&& key_switching_key.ciphertext_modulus == dest_server_key.ciphertext_modulus
}

/// The parts are sound each by itself.
pub open spec fn raw_parts_wf(
    key_switching_key: LweKeyswitchKeySpec,
    dest_server_key: ServerKeySpec,
    src_server_key: Option<ServerKeySpec>,
) -> bool {
    &&& key_switching_key.wf()
    &&& dest_server_key.wf()
    &&& src_server_key matches Some(src) ==> src.wf()
}

/// The spec-level value of an optional server key.
pub open spec fn optional_key_view(key: Option<ServerKey>) -> Option<ServerKeySpec> {
    match key {
        Some(key) => Some(key@),
        None => None,
    }
}

/// The spec-level value of an optional borrowed server key.
pub open spec fn optional_key_ref_view(key: Option<&ServerKey>) -> Option<ServerKeySpec> {
    match key {
        Some(key) => Some(key@),
        None => None,
    }
}

/// Looks at the parts of a key switching key in the order in which
/// `from_raw_parts` relies on them and reports the first that does not fit.
pub fn check_raw_parts(
    key_switching_key: &LweKeyswitchKey,
    dest_server_key: &ServerKey,
    src_server_key: Option<&ServerKey>,
    cast_rshift: i8,
    destination_key: EncryptionKeyChoice,
) -> (r: Result<(), KeyMismatch>)
    requires
        raw_parts_wf(key_switching_key@, dest_server_key@, optional_key_ref_view(src_server_key)),
    ensures
        r is Ok <==> raw_parts_compatible(
            key_switching_key@,
            dest_server_key@,
            optional_key_ref_view(src_server_key),
            cast_rshift,
            destination_key,
        ),
        r == match first_mismatch(
            key_switching_key@,
            dest_server_key@,
            optional_key_ref_view(src_server_key),
            cast_rshift,
            destination_key,
        ) {
            Some(mismatch) => Err::<(), KeyMismatch>(mismatch),
            None => Ok(()),
        },
{
    match src_server_key {
        Some(src_server_key) => {
            let src_lwe_dimension = src_server_key.ciphertext_lwe_dimension();
            let input_dimension = key_switching_key.input_key_lwe_dimension();
            if src_lwe_dimension != input_dimension {
                return Err(
                    KeyMismatch::SourceLweDimension {
                        server_key: src_lwe_dimension,
                        key_switching_key: input_dimension,
                    },
                );
            }
            if src_server_key.ciphertext_modulus != dest_server_key.ciphertext_modulus {
                return Err(KeyMismatch::SourceCiphertextModulus);
            }
        },
        None => {
            if cast_rshift < 0 {
                return Err(KeyMismatch::NegativeShiftWithoutSourceKey);
            }
        },
    }
    let dst_lwe_dimension = dest_server_key.lwe_dimension_of(destination_key);
    let output_dimension = key_switching_key.output_key_lwe_dimension();
    if dst_lwe_dimension != output_dimension {
        return Err(
            KeyMismatch::DestinationLweDimension {
                server_key: dst_lwe_dimension,
                key_switching_key: output_dimension,
            },
        );
    }
    if key_switching_key.ciphertext_modulus() != dest_server_key.ciphertext_modulus {
        return Err(KeyMismatch::KeyCiphertextModulus);
    }
    Ok(())
}

/// A structure containing the casting public key.
///
/// The casting key is generated by the client and is meant to be published:
/// the client sends it to the server so it can cast from one set of
/// parameters to another.
pub struct KeySwitchingKey {
    pub key_switching_key: LweKeyswitchKey,
    pub dest_server_key: ServerKey,
    pub src_server_key: Option<ServerKey>,
    pub cast_rshift: i8,
    pub destination_key: EncryptionKeyChoice,
}

/// A casting key that borrows its parts.
#[derive(Clone, Copy)]
pub struct KeySwitchingKeyView<'keys> {
    pub key_switching_key: &'keys LweKeyswitchKey,
    pub dest_server_key: &'keys ServerKey,
    pub src_server_key: Option<&'keys ServerKey>,
    pub cast_rshift: i8,
    pub destination_key: EncryptionKeyChoice,
}

/// The product of the two moduli of a parameter set.
pub open spec fn full_message_modulus(message_modulus: usize, carry_modulus: usize) -> nat {
    (carry_modulus * message_modulus) as nat
}

/// By how many bits a message grows on the way from the input to the output
/// parameter set.
pub open spec fn cast_rshift_between(full_message_modulus_input: nat, full_message_modulus_output: nat) -> int {
    log2_floor(full_message_modulus_output) - log2_floor(full_message_modulus_input)
}

impl KeySwitchingKey {
    /// Packs a casting key from a freshly generated key switching key and the
    /// keys of the two parameter sets.  This can cast to several kinds of
    /// keys, depending on the input.
    ///
    /// Both parameter sets need a full message modulus that is a power of
    /// two, and going to a smaller one needs the source server key.
    pub fn new(
        input_key_pair: (SecretEncryptionKeyView, Option<&ServerKey>),
        output_key_pair: (&ClientKey, &ServerKey),
        params: ShortintKeySwitchingParameters,
        key_switching_key: LweKeyswitchKey,
    ) -> (r: Self)
        requires
            input_key_pair.0.carry_modulus * input_key_pair.0.message_modulus <= usize::MAX,
            output_key_pair.0.parameters.carry_modulus * output_key_pair.0.parameters.message_modulus <= usize::MAX,
            is_power_of_two(full_message_modulus(input_key_pair.0.message_modulus, input_key_pair.0.carry_modulus)),
            is_power_of_two(
                full_message_modulus(
                    output_key_pair.0.parameters.message_modulus,
                    output_key_pair.0.parameters.carry_modulus,
                ),
            ),
            full_message_modulus(input_key_pair.0.message_modulus, input_key_pair.0.carry_modulus)
                > full_message_modulus(
                output_key_pair.0.parameters.message_modulus,
                output_key_pair.0.parameters.carry_modulus,
            ) ==> input_key_pair.1 is Some,
        ensures
            r.key_switching_key == key_switching_key,
            r.dest_server_key@ == output_key_pair.1@,
            optional_key_view(r.src_server_key) == optional_key_ref_view(input_key_pair.1),
            r.cast_rshift == cast_rshift_between(
                full_message_modulus(input_key_pair.0.message_modulus, input_key_pair.0.carry_modulus),
                full_message_modulus(
                    output_key_pair.0.parameters.message_modulus,
                    output_key_pair.0.parameters.carry_modulus,
                ),
            ),
            r.destination_key == params.destination_key,
    {
        let full_message_modulus_input = input_key_pair.0.carry_modulus * input_key_pair.0.message_modulus;
        let full_message_modulus_output = output_key_pair.0.parameters.carry_modulus
            * output_key_pair.0.parameters.message_modulus;
        let nb_bits_input: i8 = ilog2(full_message_modulus_input);
        let nb_bits_output: i8 = ilog2(full_message_modulus_output);
        let src_server_key = match input_key_pair.1 {
            Some(key) => Some(key.clone()),
            None => None,
        };
        KeySwitchingKey {
            key_switching_key,
            dest_server_key: output_key_pair.1.clone(),
            src_server_key,
            cast_rshift: nb_bits_output - nb_bits_input,
            destination_key: params.destination_key,
        }
    }

    /// The same key with its parts borrowed.
    pub open spec fn spec_as_view(&self) -> KeySwitchingKeyView<'_> {
        KeySwitchingKeyView {
            key_switching_key: &self.key_switching_key,
            dest_server_key: &self.dest_server_key,
            src_server_key: match self.src_server_key {
                Some(key) => Some(&key),
                None => None,
            },
            cast_rshift: self.cast_rshift,
            destination_key: self.destination_key,
        }
    }

    /// The same key with its parts borrowed.
    #[verifier::when_used_as_spec(spec_as_view)]
    pub fn as_view(&self) -> (r: KeySwitchingKeyView<'_>)
        ensures
            r == self.spec_as_view(),
            r.key_switching_key == &self.key_switching_key,
            r.dest_server_key == &self.dest_server_key,
            match self.src_server_key {
                Some(key) => r.src_server_key == Some(&key),
                None => r.src_server_key is None,
            },
            r.cast_rshift == self.cast_rshift,
            r.destination_key == self.destination_key,
    {
        let src_server_key = match &self.src_server_key {
            Some(key) => Some(key),
            None => None,
        };
        KeySwitchingKeyView {
            key_switching_key: &self.key_switching_key,
            dest_server_key: &self.dest_server_key,
            src_server_key,
            cast_rshift: self.cast_rshift,
            destination_key: self.destination_key,
        }
    }

    /// Deconstruct a [`KeySwitchingKey`] into its constituents.
    pub fn into_raw_parts(self) -> (r: (LweKeyswitchKey, ServerKey, Option<ServerKey>, i8, EncryptionKeyChoice))
        ensures
            r.0 == self.key_switching_key,
            r.1 == self.dest_server_key,
            r.2 == self.src_server_key,
            r.3 == self.cast_rshift,
            r.4 == self.destination_key,
    {
        let KeySwitchingKey { key_switching_key, dest_server_key, src_server_key, cast_rshift, destination_key } =
            self;
        (key_switching_key, dest_server_key, src_server_key, cast_rshift, destination_key)
    }

    /// Construct a [`KeySwitchingKey`] from its constituents, which have to
    /// fit each other: `check_raw_parts` tells whether they do.
    pub fn from_raw_parts(
        key_switching_key: LweKeyswitchKey,
        dest_server_key: ServerKey,
        src_server_key: Option<ServerKey>,
        cast_rshift: i8,
        destination_key: EncryptionKeyChoice,
    ) -> (r: Self)
        requires
            raw_parts_wf(key_switching_key@, dest_server_key@, optional_key_view(src_server_key)),
            raw_parts_compatible(
                key_switching_key@,
                dest_server_key@,
                optional_key_view(src_server_key),
                cast_rshift,
                destination_key,
            ),
        ensures
            r.key_switching_key == key_switching_key,
            r.dest_server_key == dest_server_key,
            r.src_server_key == src_server_key,
            r.cast_rshift == cast_rshift,
            r.destination_key == destination_key,
            r.compatible(),
    {
        KeySwitchingKey { key_switching_key, dest_server_key, src_server_key, cast_rshift, destination_key }
    }

    /// The parts of this key are sound and fit each other.
    pub open spec fn compatible(&self) -> bool {
        &&& raw_parts_wf(self.key_switching_key@, self.dest_server_key@, optional_key_view(self.src_server_key))
        &&& raw_parts_compatible(
            self.key_switching_key@,
            self.dest_server_key@,
            optional_key_view(self.src_server_key),
            self.cast_rshift,
            self.destination_key,
        )
    }
}

impl<'keys> KeySwitchingKeyView<'keys> {
    /// The parts of this key are sound and fit each other.
    pub open spec fn compatible(&self) -> bool {
        &&& raw_parts_wf(self.key_switching_key@, self.dest_server_key@, optional_key_ref_view(self.src_server_key))
        &&& raw_parts_compatible(
            self.key_switching_key@,
            self.dest_server_key@,
            optional_key_ref_view(self.src_server_key),
            self.cast_rshift,
            self.destination_key,
        )
    }

    /// Construct a [`KeySwitchingKeyView`] from its constituents, which have
    /// to fit each other: `check_raw_parts` tells whether they do.
    pub fn try_new(
        key_switching_key: &'keys LweKeyswitchKey,
        dest_server_key: &'keys ServerKey,
        src_server_key: Option<&'keys ServerKey>,
        cast_rshift: i8,
        destination_key: EncryptionKeyChoice,
    ) -> (r: Self)
        requires
            raw_parts_wf(key_switching_key@, dest_server_key@, optional_key_ref_view(src_server_key)),
            raw_parts_compatible(
                key_switching_key@,
                dest_server_key@,
                optional_key_ref_view(src_server_key),
                cast_rshift,
                destination_key,
            ),
        ensures
            r.key_switching_key == key_switching_key,
            r.dest_server_key == dest_server_key,
            r.src_server_key == src_server_key,
            r.cast_rshift == cast_rshift,
            r.destination_key == destination_key,
            r.compatible(),
    {
        KeySwitchingKeyView { key_switching_key, dest_server_key, src_server_key, cast_rshift, destination_key }
    }
}

} // verus!
