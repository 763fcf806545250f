//! Casting a ciphertext from one parameter set to another.

use crate::ciphertext::{Ciphertext, LweCiphertext, PBSOrder, NOISE_LEVEL_NOMINAL, NOISE_LEVEL_UNKNOWN, NOISE_LEVEL_ZERO};
use crate::decomposition::power_of_two;
use crate::key_switching_key::{KeySwitchingKey, KeySwitchingKeyView};
use crate::keyswitch::keyswitch_lwe_ciphertext;
use crate::lut::{can_make_tables, encoding_delta, is_table_of, modulus_sup, LookupTable};
use crate::polynomial::two_to_64;
use crate::server_key::{EncryptionKeyChoice, ServerKey, ServerKeySpec};
use vstd::arithmetic::power2::pow2;
use vstd::prelude::*;

verus! {

/// `ct` is the trivial encryption of `value` for `sks` with `lwe_size`
/// coefficients: a mask of zeros and the encoded value as body.
pub open spec fn is_trivial(ct: Ciphertext, sks: ServerKey, value: u64, lwe_size: int) -> bool {
    &&& ct.ct.data@.len() == lwe_size
    &&& forall|j: int| 0 <= j < lwe_size - 1 ==> #[trigger] ct.ct.data@[j] == 0
    &&& ct.ct.data@[lwe_size - 1] as int == value * encoding_delta(modulus_sup(sks))
    &&& ct.ct.ciphertext_modulus == sks.ciphertext_modulus
    &&& ct.degree as int == value as int % (usize::MAX + 1)
    &&& ct.noise_level == NOISE_LEVEL_ZERO
    &&& ct.message_modulus == sks.message_modulus
    &&& ct.carry_modulus == sks.carry_modulus
    &&& ct.pbs_order == sks.pbs_order
}

impl ServerKeySpec {
    /// The number of coefficients of the ciphertexts that this key works on,
    /// as its bootstrapping key has them.
    pub open spec fn ciphertext_lwe_size(self) -> int {
        match self.pbs_order {
            PBSOrder::KeyswitchBootstrap => self.bootstrapping_key.spec_output_lwe_dimension() + 1,
            PBSOrder::BootstrapKeyswitch => self.bootstrapping_key.input_lwe_dimension + 1,
        }
    }
}

impl ServerKey {
    /// The trivial encryption of `value` with `lwe_size` coefficients: no
    /// noise, no security, the value in the clear in the body.
    pub fn unchecked_create_trivial_with_lwe_size(&self, value: u64, lwe_size: usize) -> (ct: Ciphertext)
        requires
            lwe_size >= 1,
            1 <= modulus_sup(*self) <= usize::MAX,
            value * encoding_delta(modulus_sup(*self)) <= u64::MAX,
        ensures
            is_trivial(ct, *self, value, lwe_size as int),
    {
        let delta: u64 = 0x8000_0000_0000_0000u64 / ((self.message_modulus * self.carry_modulus) as u64);
        let shifted_value: u64 = value * delta;
        let mut data: Vec<u64> = Vec::new();
        let mut j: usize = 0;
        while j < lwe_size - 1
            invariant
                j <= lwe_size - 1,
                data@.len() == j,
                forall|c: int| 0 <= c < j ==> #[trigger] data@[c] == 0,
            decreases lwe_size - 1 - j,
        {
            data.push(0);
            j += 1;
        }
        data.push(shifted_value);
        let degree: usize = if value <= usize::MAX as u64 {
            proof {
                vstd::arithmetic::div_mod::lemma_small_mod(value as nat, (usize::MAX + 1) as nat);
            }
            value as usize
        } else {
            proof {
                assert(usize::MAX == 0xffff_ffff);
                assert(value & 0xffff_ffff == value % 0x1_0000_0000) by (bit_vector);
            }
            (value & 0xffff_ffff) as usize
        };
        Ciphertext {
            ct: LweCiphertext { data, ciphertext_modulus: self.ciphertext_modulus },
            degree,
            noise_level: NOISE_LEVEL_ZERO,
            message_modulus: self.message_modulus,
            carry_modulus: self.carry_modulus,
            pbs_order: self.pbs_order,
        }
    }

    /// The trivial encryption of `value`, brought below the message modulus,
    /// in the size of the ciphertexts of this key.
    pub fn create_trivial(&self, value: u64) -> (ct: Ciphertext)
        requires
            self@.wf(),
            1 <= self.message_modulus,
            1 <= modulus_sup(*self) <= usize::MAX,
        ensures
            is_trivial(ct, *self, (value % self.message_modulus as u64) as u64, self@.ciphertext_lwe_size()),
    {
        let reduced: u64 = value % (self.message_modulus as u64);
        let lwe_size = match self.pbs_order {
            PBSOrder::KeyswitchBootstrap => self.bootstrapping_key.output_lwe_dimension() + 1,
            PBSOrder::BootstrapKeyswitch => self.bootstrapping_key.input_lwe_dimension() + 1,
        };
        proof {
            let sup = modulus_sup(*self);
            let delta = encoding_delta(sup);
            assert(sup >= self.message_modulus) by (nonlinear_arith)
                requires
                    sup == self.message_modulus * self.carry_modulus,
                    sup >= 1,
                    self.message_modulus >= 1,
            ;
            vstd::arithmetic::div_mod::lemma_fundamental_div_mod(0x8000_0000_0000_0000, sup);
            assert(reduced * delta <= u64::MAX) by (nonlinear_arith)
                requires
                    reduced < sup,
                    0 <= delta,
                    sup * delta <= 0x8000_0000_0000_0000,
            ;
        }
        self.unchecked_create_trivial_with_lwe_size(reduced, lwe_size)
    }
}

/// The values of the table that shifts a clear value to the right.
pub open spec fn shift_right_values(count: int, shift: nat) -> Seq<u64> {
    Seq::new(count as nat, |n: int| (n / pow2(shift) as int) as u64)
}

/// The values of the table that shifts a clear value to the left and brings
/// it below `modulus`, so that the padding bit stays clean.
pub open spec fn shift_left_values(count: int, shift: nat, modulus: int) -> Seq<u64> {
    Seq::new(count as nat, |n: int| (((n * pow2(shift)) % two_to_64()) % modulus) as u64)
}

/// The values of the table that leaves a clear value as it is.
pub open spec fn identity_values(count: int) -> Seq<u64> {
    Seq::new(count as nat, |n: int| n as u64)
}

/// The values of the table that shifts to the right, for `count` clear
/// values.
pub fn tabulate_shift_right(count: usize, shift: usize) -> (values: Vec<u64>)
    requires
        shift < 64,
    ensures
        values@ == shift_right_values(count as int, shift as nat),
{
    let divisor = power_of_two(shift);
    let mut values: Vec<u64> = Vec::new();
    let mut n: usize = 0;
    while n < count
        invariant
            n <= count,
            divisor == pow2(shift as nat),
            divisor >= 1,
            values@.len() == n,
            forall|k: int| 0 <= k < n ==> #[trigger] values@[k] == (k / pow2(shift as nat) as int) as u64,
        decreases count - n,
    {
        values.push((n as u64) / divisor);
        n += 1;
    }
    proof {
        assert(values@ =~= shift_right_values(count as int, shift as nat));
    }
    values
}

/// The values of the table that shifts to the left below `modulus`, for
/// `count` clear values.
pub fn tabulate_shift_left(count: usize, shift: usize, modulus: u64) -> (values: Vec<u64>)
    requires
        shift < 64,
        modulus >= 1,
    ensures
        values@ == shift_left_values(count as int, shift as nat, modulus as int),
{
    let factor = power_of_two(shift);
    let mut values: Vec<u64> = Vec::new();
    let mut n: usize = 0;
    while n < count
        invariant
            n <= count,
            modulus >= 1,
            factor == pow2(shift as nat),
            values@.len() == n,
            forall|k: int| 0 <= k < n ==> #[trigger] values@[k] == (((k * pow2(shift as nat)) % two_to_64()) % modulus as int) as u64,
        decreases count - n,
    {
        proof {
            assert((n as u64) as nat * factor as nat == n * pow2(shift as nat));
        }
        values.push((n as u64).wrapping_mul(factor) % modulus);
        n += 1;
    }
    proof {
        assert(values@ =~= shift_left_values(count as int, shift as nat, modulus as int));
    }
    values
}

/// The values of the table that changes nothing, for `count` clear values.
pub fn tabulate_identity(count: usize) -> (values: Vec<u64>)
    ensures
        values@ == identity_values(count as int),
{
    let mut values: Vec<u64> = Vec::new();
    let mut n: usize = 0;
    while n < count
        invariant
            n <= count,
            values@.len() == n,
            forall|k: int| 0 <= k < n ==> #[trigger] values@[k] == k as u64,
        decreases count - n,
    {
        values.push(n as u64);
        n += 1;
    }
    proof {
        assert(values@ =~= identity_values(count as int));
    }
    values
}

/// `ct` is a ciphertext for `sks`: it has the moduli and the bootstrap order
/// of the key, and the size of the ciphertexts that the key works on.
pub open spec fn is_ciphertext_of(ct: Ciphertext, sks: ServerKey) -> bool {
    &&& ct.ct.data@.len() == sks@.ciphertext_lwe_size()
    &&& ct.ct.ciphertext_modulus == sks.ciphertext_modulus
    &&& ct.message_modulus == sks.message_modulus
    &&& ct.carry_modulus == sks.carry_modulus
    &&& ct.pbs_order == sks.pbs_order
}

impl<'keys> KeySwitchingKeyView<'keys> {
    /// The key can cast `input_ct`: its parts fit, the shift stays inside a
    /// coefficient, the ciphertext has the size that the key takes, and the
    /// tables that the shift needs can be made.
    pub open spec fn can_cast(&self, input_ct: Ciphertext) -> bool {
        &&& self.compatible()
        &&& -64 < self.cast_rshift < 64
        &&& self.key_switching_key@.can_switch()
        &&& self.dest_server_key.key_switching_key@.can_switch()
        &&& input_ct.ct.data@.len() == self.key_switching_key@.input_key_lwe_dimension() + 1
        &&& can_make_tables(*self.dest_server_key)
        &&& 1 <= self.dest_server_key.message_modulus
        &&& self.dest_server_key.key_switching_key.ciphertext_modulus == self.dest_server_key.ciphertext_modulus
        &&& self.destination_key == EncryptionKeyChoice::Big && self.dest_server_key.pbs_order == PBSOrder::BootstrapKeyswitch
            ==> self.dest_server_key.key_switching_key@.input_key_lwe_dimension() == self.dest_server_key.bootstrapping_key.spec_output_lwe_dimension()
            && self.dest_server_key.key_switching_key@.output_key_lwe_dimension() == self.dest_server_key.bootstrapping_key.input_lwe_dimension
        &&& self.cast_rshift < 0 ==> {
            &&& self.src_server_key is Some
            &&& can_make_tables(*self.src_server_key->Some_0)
            &&& 1 <= input_ct.carry_modulus * input_ct.message_modulus <= usize::MAX
        }
    }

    /// `switched` is `input_ct` brought under the chosen key of the
    /// destination, its message shifted by the difference in bits between
    /// the two parameter sets.  A shift to the right is made by a lookup table
    /// after the key switch, a shift to the left by one before it.  Of what a
    /// lookup gives, the coefficients and the degree are taken; moduli and
    /// bootstrap order are those of the destination in every case.
    pub open spec fn is_switched<F: Fn(&ServerKey, &Ciphertext, &LookupTable) -> Ciphertext>(
        &self,
        input_ct: Ciphertext,
        apply_lookup_table: F,
        switched: Ciphertext,
    ) -> bool {
        let dest = *self.dest_server_key;
        let key = self.key_switching_key@;
        let lwe_size = dest@.lwe_dimension_of(self.destination_key) + 1;
        if self.cast_rshift == 0 {
            &&& switched.ct.data@ == key.keyswitched(input_ct.ct.data@)
            &&& switched.ct.ciphertext_modulus == dest.ciphertext_modulus
            &&& switched.degree == input_ct.degree
            &&& switched.noise_level == NOISE_LEVEL_UNKNOWN
            &&& switched.message_modulus == dest.message_modulus
            &&& switched.carry_modulus == dest.carry_modulus
            &&& switched.pbs_order == dest.pbs_order
        } else if self.cast_rshift > 0 {
            exists|under_key: Ciphertext, acc: LookupTable, shifted: Ciphertext|
                {
                    &&& under_key.ct.data@ == key.keyswitched(input_ct.ct.data@)
                    &&& under_key.ct.ciphertext_modulus == dest.ciphertext_modulus
                    &&& under_key.degree == 0
                    &&& under_key.noise_level == NOISE_LEVEL_ZERO
                    &&& under_key.message_modulus == dest.message_modulus
                    &&& under_key.carry_modulus == dest.carry_modulus
                    &&& under_key.pbs_order == dest.pbs_order
                    &&& is_table_of(acc, dest, shift_right_values(modulus_sup(dest), self.cast_rshift as nat))
                    &&& #[trigger] apply_lookup_table.ensures((&dest, &under_key, &acc), shifted)
                    &&& switched.ct.data@ == shifted.ct.data@
                    &&& switched.ct.ciphertext_modulus == dest.ciphertext_modulus
                    &&& switched.degree == shifted.degree
                    &&& switched.noise_level == NOISE_LEVEL_NOMINAL
                    &&& switched.message_modulus == dest.message_modulus
                    &&& switched.carry_modulus == dest.carry_modulus
                    &&& switched.pbs_order == dest.pbs_order
                }
        } else {
            let src = *self.src_server_key->Some_0;
            exists|acc: LookupTable, shifted: Ciphertext|
                {
                    &&& is_table_of(
                        acc,
                        src,
                        shift_left_values(
                            modulus_sup(src),
                            (-self.cast_rshift) as nat,
                            input_ct.carry_modulus * input_ct.message_modulus,
                        ),
                    )
                    &&& #[trigger] apply_lookup_table.ensures((&src, &input_ct, &acc), shifted)
                    &&& switched.ct.data@ == key.keyswitched(shifted.ct.data@)
                    &&& switched.ct.ciphertext_modulus == dest.ciphertext_modulus
                    &&& switched.degree as int == shifted.degree as int / pow2((-self.cast_rshift) as nat) as int
                    &&& switched.noise_level == NOISE_LEVEL_UNKNOWN
                    &&& switched.message_modulus == dest.message_modulus
                    &&& switched.carry_modulus == dest.carry_modulus
                    &&& switched.pbs_order == dest.pbs_order
                }
        }
    }

    /// `output` is `switched` under the key that the destination server key
    /// works on: `switched` itself if that is the chosen key; else, coming
    /// from the big key, its key switch to the small one, and, coming from the
    /// small key, its bootstrap with the table that changes nothing.
    pub open spec fn is_brought_home<G: Fn(&ServerKey, &LweCiphertext, &LookupTable) -> LweCiphertext>(
        &self,
        switched: Ciphertext,
        programmable_bootstrap: G,
        output: Ciphertext,
    ) -> bool {
        let dest = *self.dest_server_key;
        if self.destination_key.pbs_order() == dest.pbs_order {
            output == switched
        } else {
            &&& output.degree == switched.degree
            &&& output.message_modulus == dest.message_modulus
            &&& output.carry_modulus == dest.carry_modulus
            &&& output.pbs_order == dest.pbs_order
            &&& output.ct.ciphertext_modulus == dest.ciphertext_modulus
            &&& match self.destination_key {
                EncryptionKeyChoice::Big => {
                    &&& output.ct.data@ == dest.key_switching_key@.keyswitched(switched.ct.data@)
                    &&& output.noise_level == switched.noise_level
                },
                EncryptionKeyChoice::Small => {
                    &&& output.noise_level == NOISE_LEVEL_NOMINAL
                    &&& exists|acc: LookupTable, trivial: LweCiphertext|
                        {
                            &&& is_table_of(acc, dest, identity_values(modulus_sup(dest)))
                            &&& #[trigger] programmable_bootstrap.ensures((&dest, &switched.ct, &acc), trivial)
                            &&& output.ct.data@ == trivial.data@
                        }
                },
            }
        }
    }

    /// What the key asks of the two bootstraps that it is handed: they can
    /// be called on what the cast hands them, a table lookup keeps the size of
    /// the ciphertext, and a bare bootstrap arrives at the size of the big
    /// key.
    pub open spec fn bootstraps_fit<
        F: Fn(&ServerKey, &Ciphertext, &LookupTable) -> Ciphertext,
        G: Fn(&ServerKey, &LweCiphertext, &LookupTable) -> LweCiphertext,
    >(&self, apply_lookup_table: F, programmable_bootstrap: G) -> bool {
        &&& forall|sks: &ServerKey, ct: &Ciphertext, acc: &LookupTable| #[trigger] apply_lookup_table.requires((sks, ct, acc))
        &&& forall|sks: &ServerKey, ct: &Ciphertext, acc: &LookupTable, out: Ciphertext| #[trigger] apply_lookup_table.ensures((sks, ct, acc), out) ==> out.ct.data@.len() == ct.ct.data@.len()
        &&& forall|sks: &ServerKey, ct: &LweCiphertext, acc: &LookupTable| #[trigger] programmable_bootstrap.requires((sks, ct, acc))
        &&& forall|sks: &ServerKey, ct: &LweCiphertext, acc: &LookupTable, out: LweCiphertext| #[trigger] programmable_bootstrap.ensures((sks, ct, acc), out) ==> out.data@.len() == sks.bootstrapping_key.spec_output_lwe_dimension() + 1
    }

    /// Brings `input_ct` under the chosen key of the destination and shifts
    /// its message by the difference in bits.
    fn switch<F: Fn(&ServerKey, &Ciphertext, &LookupTable) -> Ciphertext>(
        &self,
        input_ct: &Ciphertext,
        apply_lookup_table: &F,
    ) -> (switched: Ciphertext)
        requires
            self.can_cast(*input_ct),
            forall|sks: &ServerKey, ct: &Ciphertext, acc: &LookupTable| #[trigger] apply_lookup_table.requires((sks, ct, acc)),
            forall|sks: &ServerKey, ct: &Ciphertext, acc: &LookupTable, out: Ciphertext| #[trigger] apply_lookup_table.ensures((sks, ct, acc), out) ==> out.ct.data@.len() == ct.ct.data@.len(),
        ensures
            self.is_switched(*input_ct, *apply_lookup_table, switched),
            switched.ct.data@.len() == self.dest_server_key@.lwe_dimension_of(self.destination_key) + 1,
            switched.ct.ciphertext_modulus == self.dest_server_key.ciphertext_modulus,
            switched.message_modulus == self.dest_server_key.message_modulus,
            switched.carry_modulus == self.dest_server_key.carry_modulus,
            switched.pbs_order == self.dest_server_key.pbs_order,
    {
        let dest = self.dest_server_key;
        let output_lwe_size = dest.lwe_dimension_of(self.destination_key) + 1;
        proof {
            vstd::arithmetic::div_mod::lemma_fundamental_div_mod(0x8000_0000_0000_0000, modulus_sup(*dest));
            assert(0 * encoding_delta(modulus_sup(*dest)) == 0) by (nonlinear_arith);
        }
        let mut keyswitched = dest.unchecked_create_trivial_with_lwe_size(0, output_lwe_size);
        let cast_rshift = self.cast_rshift;
        if cast_rshift == 0 {
            // Same bit size: only key switch.
            keyswitch_lwe_ciphertext(self.key_switching_key, &input_ct.ct, &mut keyswitched.ct);
            keyswitched.degree = input_ct.degree;
            // Where the noise stands after the switch is not known.
            keyswitched.noise_level = NOISE_LEVEL_UNKNOWN;
            keyswitched
        } else if cast_rshift > 0 {
            // Cast to a bigger bit length: key switch, then right shift.
            keyswitch_lwe_ciphertext(self.key_switching_key, &input_ct.ct, &mut keyswitched.ct);
            let values = tabulate_shift_right(dest.message_modulus * dest.carry_modulus, cast_rshift as usize);
            let acc = dest.generate_lookup_table(&values);
            let shifted = apply_lookup_table(dest, &keyswitched, &acc);
            // The lookup works in place: coefficients and degree are its own,
            // all else stays as the destination has it.
            keyswitched.ct.data = shifted.ct.data;
            keyswitched.degree = shifted.degree;
            keyswitched.noise_level = NOISE_LEVEL_NOMINAL;
            keyswitched
        } else {
            // Cast to a smaller bit length: left shift, then key switch.
            let src_server_key = self.src_server_key.unwrap();
            let shift: usize = (-cast_rshift) as usize;
            let modulus: u64 = (input_ct.carry_modulus * input_ct.message_modulus) as u64;
            let values = tabulate_shift_left(
                src_server_key.message_modulus * src_server_key.carry_modulus,
                shift,
                modulus,
            );
            let acc = src_server_key.generate_lookup_table(&values);
            let shifted_cipher = apply_lookup_table(src_server_key, input_ct, &acc);
            keyswitch_lwe_ciphertext(self.key_switching_key, &shifted_cipher.ct, &mut keyswitched.ct);
            // The degree is high in the source modulus and smaller in the
            // one it arrives in.
            let divisor = power_of_two(shift);
            keyswitched.degree = ((shifted_cipher.degree as u64) / divisor) as usize;
            keyswitched.noise_level = NOISE_LEVEL_UNKNOWN;
            keyswitched
        }
    }

    /// Brings `switched` under the key that the destination server key works
    /// on.
    fn bring_home<G: Fn(&ServerKey, &LweCiphertext, &LookupTable) -> LweCiphertext>(
        &self,
        switched: Ciphertext,
        programmable_bootstrap: &G,
    ) -> (output: Ciphertext)
        requires
            self.compatible(),
            self.dest_server_key.key_switching_key@.can_switch(),
            can_make_tables(*self.dest_server_key),
            1 <= self.dest_server_key.message_modulus,
            self.dest_server_key.key_switching_key.ciphertext_modulus == self.dest_server_key.ciphertext_modulus,
            self.destination_key == EncryptionKeyChoice::Big && self.dest_server_key.pbs_order == PBSOrder::BootstrapKeyswitch
                ==> self.dest_server_key.key_switching_key@.input_key_lwe_dimension() == self.dest_server_key.bootstrapping_key.spec_output_lwe_dimension()
                && self.dest_server_key.key_switching_key@.output_key_lwe_dimension() == self.dest_server_key.bootstrapping_key.input_lwe_dimension,
            switched.ct.data@.len() == self.dest_server_key@.lwe_dimension_of(self.destination_key) + 1,
            switched.ct.ciphertext_modulus == self.dest_server_key.ciphertext_modulus,
            switched.message_modulus == self.dest_server_key.message_modulus,
            switched.carry_modulus == self.dest_server_key.carry_modulus,
            switched.pbs_order == self.dest_server_key.pbs_order,
            forall|sks: &ServerKey, ct: &LweCiphertext, acc: &LookupTable| #[trigger] programmable_bootstrap.requires((sks, ct, acc)),
            forall|sks: &ServerKey, ct: &LweCiphertext, acc: &LookupTable, out: LweCiphertext| #[trigger] programmable_bootstrap.ensures((sks, ct, acc), out) ==> out.data@.len() == sks.bootstrapping_key.spec_output_lwe_dimension() + 1,
        ensures
            self.is_brought_home(switched, *programmable_bootstrap, output),
            is_ciphertext_of(output, *self.dest_server_key),
    {
        let dest = self.dest_server_key;
        if self.destination_key.pbs_order() == dest.pbs_order {
            return switched;
        }
        let wrong_key_ct = switched;
        let mut output = dest.create_trivial(0);
        output.degree = wrong_key_ct.degree;
        output.noise_level = wrong_key_ct.noise_level;
        match self.destination_key {
            // Big to small: a key switch.
            EncryptionKeyChoice::Big => {
                keyswitch_lwe_ciphertext(&dest.key_switching_key, &wrong_key_ct.ct, &mut output.ct);
            },
            // Small to big: a bootstrap.
            EncryptionKeyChoice::Small => {
                let values = tabulate_identity(dest.message_modulus * dest.carry_modulus);
                let acc = dest.generate_lookup_table(&values);
                let bootstrapped = programmable_bootstrap(dest, &wrong_key_ct.ct, &acc);
                output.ct.data = bootstrapped.data;
                output.noise_level = NOISE_LEVEL_NOMINAL;
            },
        }
        output
    }

    /// Cast a ciphertext from the source parameter set to the dest parameter
    /// set, returning a new ciphertext.
    ///
    /// The two bootstraps are what the caller passes in: one that applies a
    /// lookup table to a ciphertext of a server key, and the bare one from
    /// the small key to the big one.
    pub fn cast<
        F: Fn(&ServerKey, &Ciphertext, &LookupTable) -> Ciphertext,
        G: Fn(&ServerKey, &LweCiphertext, &LookupTable) -> LweCiphertext,
    >(&self, input_ct: &Ciphertext, apply_lookup_table: &F, programmable_bootstrap: &G) -> (output: Ciphertext)
        requires
            self.can_cast(*input_ct),
            self.bootstraps_fit(*apply_lookup_table, *programmable_bootstrap),
        ensures
            exists|switched: Ciphertext|
                {
                    &&& #[trigger] self.is_switched(*input_ct, *apply_lookup_table, switched)
                    &&& self.is_brought_home(switched, *programmable_bootstrap, output)
                },
            is_ciphertext_of(output, *self.dest_server_key),
    {
        let switched = self.switch(input_ct, apply_lookup_table);
        let ghost seen = switched;
        let output = self.bring_home(switched, programmable_bootstrap);
        proof {
            assert(self.is_switched(*input_ct, *apply_lookup_table, seen));
        }
        output
    }
}

impl KeySwitchingKey {
    /// Cast a ciphertext from the source parameter set to the dest parameter
    /// set, returning a new ciphertext.
    pub fn cast<
        F: Fn(&ServerKey, &Ciphertext, &LookupTable) -> Ciphertext,
        G: Fn(&ServerKey, &LweCiphertext, &LookupTable) -> LweCiphertext,
    >(&self, input_ct: &Ciphertext, apply_lookup_table: &F, programmable_bootstrap: &G) -> (output: Ciphertext)
        requires
            self.spec_as_view().can_cast(*input_ct),
            self.spec_as_view().bootstraps_fit(*apply_lookup_table, *programmable_bootstrap),
        ensures
            exists|switched: Ciphertext|
                {
                    &&& #[trigger] self.spec_as_view().is_switched(*input_ct, *apply_lookup_table, switched)
                    &&& self.spec_as_view().is_brought_home(switched, *programmable_bootstrap, output)
                },
            is_ciphertext_of(output, self.dest_server_key),
    {
        self.as_view().cast(input_ct, apply_lookup_table, programmable_bootstrap)
    }
}

} // verus!
