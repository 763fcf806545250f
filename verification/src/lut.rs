//! The named lookup tables that a bootstrap can apply, and how their
//! accumulators are laid out.

use crate::glwe::GlweCiphertext;
use crate::polynomial::two_to_64;
use crate::server_key::ServerKey;
use vstd::prelude::*;

verus! {

/// Selects one of the lookup tables that every party builds at start-up.
#[derive(Clone, Copy, Debug, PartialEq, Eq, Structural)]
pub enum Lut {
    ExtractMessage,
    ExtractCarry,
    BivarMulLow,
    BivarMulHigh,
    PrefixSumCarryPropagation,
    DoesBlockGenerateCarry,
    DoesBlockGenerateOrPropagate,
}

/// A block neither generates nor propagates a carry.
pub const OUTPUT_CARRY_NONE: u64 = 0;

/// A block generates a carry.
pub const OUTPUT_CARRY_GENERATED: u64 = 1;

/// A block hands on the carry that it receives.
pub const OUTPUT_CARRY_PROPAGATED: u64 = 2;

/// The left operand that is packed into `x` for a table of two operands.
pub open spec fn packed_lhs(message_modulus: u64, x: u64) -> int {
    (x as int / message_modulus as int) % message_modulus as int
}

/// The right operand that is packed into `x` for a table of two operands.
pub open spec fn packed_rhs(message_modulus: u64, x: u64) -> int {
    (x as int % message_modulus as int) % message_modulus as int
}

impl Lut {
    /// The function on clear values that the table applies.
    pub open spec fn spec_evaluate(&self, message_modulus: u64, x: u64) -> u64 {
        let lhs = packed_lhs(message_modulus, x);
        let rhs = packed_rhs(message_modulus, x);
        match self {
            Lut::ExtractMessage => (x as int % message_modulus as int) as u64,
            Lut::ExtractCarry => (x as int / message_modulus as int) as u64,
            Lut::BivarMulLow => ((lhs * rhs) % message_modulus as int) as u64,
            Lut::BivarMulHigh => ((lhs * rhs) / message_modulus as int) as u64,
            Lut::PrefixSumCarryPropagation => if lhs == OUTPUT_CARRY_PROPAGATED {
                rhs as u64
            } else {
                lhs as u64
            },
            Lut::DoesBlockGenerateCarry => if x >= message_modulus {
                OUTPUT_CARRY_GENERATED
            } else {
                OUTPUT_CARRY_NONE
            },
            Lut::DoesBlockGenerateOrPropagate => if x >= message_modulus {
                OUTPUT_CARRY_GENERATED
            } else if x == message_modulus - 1 {
                OUTPUT_CARRY_PROPAGATED
            } else {
                OUTPUT_CARRY_NONE
            },
        }
    }

    /// The function on clear values that the table applies.
    #[verifier::when_used_as_spec(spec_evaluate)]
    pub fn evaluate(&self, message_modulus: u64, x: u64) -> (r: u64)
        requires
            message_modulus >= 1,
        ensures
            r == self.spec_evaluate(message_modulus, x),
    {
        let lhs: u64 = (x / message_modulus) % message_modulus;
        let rhs: u64 = (x % message_modulus) % message_modulus;
        proof {
            assert(0 <= lhs * rhs <= 0xffff_ffff_ffff_ffff * 0xffff_ffff_ffff_ffff) by (nonlinear_arith)
                requires
                    0 <= lhs <= 0xffff_ffff_ffff_ffff,
                    0 <= rhs <= 0xffff_ffff_ffff_ffff,
            ;
            assert(lhs * rhs <= (message_modulus - 1) * (message_modulus - 1)) by (nonlinear_arith)
                requires
                    0 <= lhs <= message_modulus - 1,
                    0 <= rhs <= message_modulus - 1,
            ;
            assert((message_modulus - 1) * (message_modulus - 1) < message_modulus * 0x1_0000_0000_0000_0000) by (nonlinear_arith)
                requires
                    1 <= message_modulus <= 0xffff_ffff_ffff_ffff,
            ;
            vstd::arithmetic::div_mod::lemma_div_is_ordered(
                lhs * rhs,
                message_modulus * 0x1_0000_0000_0000_0000 - 1,
                message_modulus as int,
            );
            assert((message_modulus * 0x1_0000_0000_0000_0000 - 1) / (message_modulus as int) < 0x1_0000_0000_0000_0000) by (nonlinear_arith)
                requires
                    1 <= message_modulus,
            ;
        }
        let product: u128 = (lhs as u128) * (rhs as u128);
        match self {
            Lut::ExtractMessage => x % message_modulus,
            Lut::ExtractCarry => x / message_modulus,
            Lut::BivarMulLow => (product % (message_modulus as u128)) as u64,
            Lut::BivarMulHigh => (product / (message_modulus as u128)) as u64,
            Lut::PrefixSumCarryPropagation => if lhs == OUTPUT_CARRY_PROPAGATED {
                rhs
            } else {
                lhs
            },
            Lut::DoesBlockGenerateCarry => if x >= message_modulus {
                OUTPUT_CARRY_GENERATED
            } else {
                OUTPUT_CARRY_NONE
            },
            Lut::DoesBlockGenerateOrPropagate => if x >= message_modulus {
                OUTPUT_CARRY_GENERATED
            } else if x == message_modulus - 1 {
                OUTPUT_CARRY_PROPAGATED
            } else {
                OUTPUT_CARRY_NONE
            },
        }
    }
}

/// The values of a table on the inputs below `count`.
pub open spec fn lut_values(lut: Lut, message_modulus: u64, count: int) -> Seq<u64> {
    Seq::new(count as nat, |x: int| lut.spec_evaluate(message_modulus, x as u64))
}

/// The largest of the values, and zero if there is none.
pub open spec fn largest(values: Seq<u64>) -> u64
    decreases values.len(),
{
    if values.len() == 0 {
        0
    } else if values.last() > largest(values.drop_last()) {
        values.last()
    } else {
        largest(values.drop_last())
    }
}

/// The step between two neighbouring clear values in the top bits of a
/// coefficient, below the padding bit.
pub open spec fn encoding_delta(modulus_sup: int) -> u64 {
    (0x8000_0000_0000_0000int / modulus_sup) as u64
}

/// The negative of `value` modulo `2^64`.
pub open spec fn wrapping_neg(value: u64) -> u64 {
    ((two_to_64() - value) % two_to_64()) as u64
}

/// Coefficient `j` of the body before it is rotated: the polynomial is cut
/// into one box per value, and every coefficient of a box holds the encoded
/// value of the box.
pub open spec fn boxed_value(values: Seq<u64>, delta: u64, box_size: int, j: int) -> u64 {
    if box_size > 0 && j / box_size < values.len() {
        ((values[j / box_size] * delta) % two_to_64()) as u64
    } else {
        0
    }
}

/// The body of the accumulator of a table with these values: the boxes,
/// rotated to the left by half a box, so that the first box is centred on
/// zero, its left half negated as it wraps around.
pub open spec fn accumulator_body(values: Seq<u64>, polynomial_size: int) -> Seq<u64> {
    let box_size = polynomial_size / values.len() as int;
    let half = box_size / 2;
    let delta = encoding_delta(values.len() as int);
    Seq::new(
        polynomial_size as nat,
        |j: int| if j + half < polynomial_size {
            boxed_value(values, delta, box_size, j + half)
        } else {
            wrapping_neg(boxed_value(values, delta, box_size, j + half - polynomial_size))
        },
    )
}

/// The coefficients of the accumulator of a table: the mask is zero, the body
/// holds the values.
pub open spec fn accumulator_data(values: Seq<u64>, glwe_size: int, polynomial_size: int) -> Seq<u64> {
    Seq::new(((glwe_size - 1) * polynomial_size) as nat, |j: int| 0u64) + accumulator_body(values, polynomial_size)
}

/// An accumulator for a bootstrap, with the largest clear value it can yield.
pub struct LookupTable {
    pub acc: GlweCiphertext,
    pub degree: usize,
}

/// `table` is the table of `values` for the parameters of `sks`.
pub open spec fn is_table_of(table: LookupTable, sks: ServerKey, values: Seq<u64>) -> bool {
    &&& table.acc.polynomial_size == sks.bootstrapping_key.polynomial_size
    &&& table.acc.ciphertext_modulus == sks.ciphertext_modulus
    &&& table.acc.data@ == accumulator_data(
        values,
        sks.bootstrapping_key.glwe_size as int,
        sks.bootstrapping_key.polynomial_size as int,
    )
    &&& table.degree as int == largest(values) as int % (usize::MAX + 1)
}

/// The number of clear values that a ciphertext of `sks` can hold.
pub open spec fn modulus_sup(sks: ServerKey) -> int {
    sks.message_modulus * sks.carry_modulus
}

/// Tables can be made for `sks`: there is a clear value to encode, and the
/// accumulator can be held in memory.
pub open spec fn can_make_tables(sks: ServerKey) -> bool {
    &&& sks.bootstrapping_key.glwe_size >= 1
    &&& sks.bootstrapping_key.polynomial_size >= 1
    &&& sks.bootstrapping_key.glwe_size * sks.bootstrapping_key.polynomial_size <= usize::MAX
    &&& 1 <= modulus_sup(sks) <= usize::MAX
}

proof fn lemma_largest_push(values: Seq<u64>, value: u64)
    ensures
        largest(values.push(value)) == if value > largest(values) {
            value
        } else {
            largest(values)
        },
{
    assert(values.push(value).drop_last() =~= values);
}

impl ServerKey {
    /// Tells whether tables can be made for this key.
    pub fn check_can_make_tables(&self) -> (r: bool)
        ensures
            r == can_make_tables(*self),
    {
        if self.bootstrapping_key.glwe_size < 1 || self.bootstrapping_key.polynomial_size < 1 {
            return false;
        }
        if self.bootstrapping_key.glwe_size.checked_mul(self.bootstrapping_key.polynomial_size).is_none() {
            return false;
        }
        match self.message_modulus.checked_mul(self.carry_modulus) {
            Some(product) => product >= 1,
            None => false,
        }
    }

    /// The table of a function that takes the values `values` on the clear
    /// inputs from zero on.
    pub fn generate_lookup_table(&self, values: &Vec<u64>) -> (table: LookupTable)
        requires
            can_make_tables(*self),
            values@.len() == modulus_sup(*self),
        ensures
            is_table_of(table, *self, values@),
            table.acc.wf(),
    {
        let polynomial_size = self.bootstrapping_key.polynomial_size;
        let glwe_size = self.bootstrapping_key.glwe_size;
        let count = values.len();
        let box_size = polynomial_size / count;
        let half = box_size / 2;
        let delta: u64 = 0x8000_0000_0000_0000u64 / (count as u64);
        proof {
            assert((glwe_size - 1) * polynomial_size + polynomial_size == glwe_size * polynomial_size) by (nonlinear_arith);
            assert(0 <= (glwe_size - 1) * polynomial_size) by (nonlinear_arith)
                requires
                    glwe_size >= 1,
                    polynomial_size >= 1,
            ;
        }
        let mask_len = (glwe_size - 1) * polynomial_size;
        let mut data: Vec<u64> = Vec::new();
        let mut j: usize = 0;
        while j < mask_len
            invariant
                j <= mask_len,
                data@.len() == j,
                forall|i: int| 0 <= i < j ==> #[trigger] data@[i] == 0,
            decreases mask_len - j,
        {
            data.push(0);
            j += 1;
        }
        let ghost mask = data@;
        let ghost body = accumulator_body(values@, polynomial_size as int);
        let mut j: usize = 0;
        while j < polynomial_size
            invariant
                j <= polynomial_size,
                count == values@.len(),
                count >= 1,
                box_size == polynomial_size / count,
                half == box_size / 2,
                delta == encoding_delta(count as int),
                body == accumulator_body(values@, polynomial_size as int),
                data@ == mask + body.take(j as int),
            decreases polynomial_size - j,
        {
            let source: usize = if j < polynomial_size - half {
                j + half
            } else {
                j - (polynomial_size - half)
            };
            let boxed: u64 = if box_size > 0 && source / box_size < count {
                values[source / box_size].wrapping_mul(delta)
            } else {
                0
            };
            proof {
                assert(boxed == boxed_value(values@, delta, box_size as int, source as int));
            }
            let coefficient: u64 = if j < polynomial_size - half {
                boxed
            } else {
                proof {
                    if boxed == 0 {
                        vstd::arithmetic::div_mod::lemma_mod_self_0(two_to_64());
                    } else {
                        vstd::arithmetic::div_mod::lemma_small_mod((two_to_64() - boxed) as nat, two_to_64() as nat);
                    }
                }
                0u64.wrapping_sub(boxed)
            };
            data.push(coefficient);
            proof {
                assert(body.take(j + 1) =~= body.take(j as int).push(body[j as int]));
                assert(data@ =~= mask + body.take(j + 1));
            }
            j += 1;
        }
        let mut max_value: u64 = 0;
        let mut i: usize = 0;
        while i < count
            invariant
                i <= count,
                count == values@.len(),
                max_value == largest(values@.take(i as int)),
            decreases count - i,
        {
            proof {
                lemma_largest_push(values@.take(i as int), values@[i as int]);
                assert(values@.take(i + 1) =~= values@.take(i as int).push(values@[i as int]));
            }
            if values[i] > max_value {
                max_value = values[i];
            }
            i += 1;
        }
        proof {
            assert(values@.take(count as int) =~= values@);
            assert(body.take(polynomial_size as int) =~= body);
            assert(mask =~= Seq::new(((glwe_size - 1) * polynomial_size) as nat, |j: int| 0u64));
            assert(data@.len() == glwe_size * polynomial_size);
            vstd::arithmetic::div_mod::lemma_fundamental_div_mod_converse(
                data@.len() as int,
                polynomial_size as int,
                glwe_size as int,
                0,
            );
            assert(glwe_size * polynomial_size >= polynomial_size) by (nonlinear_arith)
                requires
                    glwe_size >= 1,
                    polynomial_size >= 1,
            ;
        }
        let degree: usize = truncate_to_usize(max_value);
        LookupTable {
            acc: GlweCiphertext { data, polynomial_size, ciphertext_modulus: self.ciphertext_modulus },
            degree,
        }
    }

    /// The values of the named table `lut` on all clear values of this key.
    pub fn tabulate(&self, lut: Lut) -> (values: Vec<u64>)
        requires
            1 <= self.message_modulus <= u64::MAX,
            modulus_sup(*self) <= usize::MAX,
        ensures
            values@ == lut_values(lut, self.message_modulus as u64, modulus_sup(*self)),
    {
        let count = self.message_modulus * self.carry_modulus;
        let message_modulus = self.message_modulus as u64;
        let mut values: Vec<u64> = Vec::new();
        let mut x: usize = 0;
        while x < count
            invariant
                x <= count,
                message_modulus >= 1,
                values@.len() == x,
                forall|i: int| 0 <= i < x ==> #[trigger] values@[i] == lut.spec_evaluate(message_modulus, i as u64),
            decreases count - x,
        {
            values.push(lut.evaluate(message_modulus, x as u64));
            x += 1;
        }
        proof {
            assert(values@ =~= lut_values(lut, message_modulus, count as int));
        }
        values
    }
}

/// The low bits of `value` that fit a `usize`.
fn truncate_to_usize(value: u64) -> (r: usize)
    ensures
        r as int == value as int % (usize::MAX + 1),
{
    if value <= usize::MAX as u64 {
        proof {
            vstd::arithmetic::div_mod::lemma_small_mod(value as nat, (usize::MAX + 1) as nat);
        }
        value as usize
    } else {
        proof {
            assert(usize::MAX == 0xffff_ffff);
            assert(value & 0xffff_ffff == value % 0x1_0000_0000) by (bit_vector);
        }
        (value & 0xffff_ffff) as usize
    }
}

/// The table of the named function `lut` for the parameters of `sks`.
pub open spec fn is_named_table(table: LookupTable, sks: ServerKey, lut: Lut) -> bool {
    is_table_of(table, sks, lut_values(lut, sks.message_modulus as u64, modulus_sup(sks)))
}

/// The lookup tables of a run, one for every name.
pub struct Luts {
    pub extract_message: LookupTable,
    pub extract_carry: LookupTable,
    pub bivar_mul_low: LookupTable,
    pub bivar_mul_high: LookupTable,
    pub prefix_sum_carry_propagation: LookupTable,
    pub does_block_generate_carry: LookupTable,
    pub does_block_generate_or_propagate: LookupTable,
}

impl Luts {
    /// The table that `lut` names.
    pub open spec fn spec_get(&self, lut: Lut) -> &LookupTable {
        match lut {
            Lut::ExtractMessage => &self.extract_message,
            Lut::ExtractCarry => &self.extract_carry,
            Lut::BivarMulLow => &self.bivar_mul_low,
            Lut::BivarMulHigh => &self.bivar_mul_high,
            Lut::PrefixSumCarryPropagation => &self.prefix_sum_carry_propagation,
            Lut::DoesBlockGenerateCarry => &self.does_block_generate_carry,
            Lut::DoesBlockGenerateOrPropagate => &self.does_block_generate_or_propagate,
        }
    }

    /// Builds the table of every named function for the parameters of `sks`.
    pub fn new(sks: &ServerKey) -> (luts: Luts)
        requires
            can_make_tables(*sks),
            1 <= sks.message_modulus <= u64::MAX,
        ensures
            forall|lut: Lut| is_named_table(*#[trigger] luts.spec_get(lut), *sks, lut),
    {
        Luts {
            extract_message: sks.generate_lookup_table(&sks.tabulate(Lut::ExtractMessage)),
            extract_carry: sks.generate_lookup_table(&sks.tabulate(Lut::ExtractCarry)),
            bivar_mul_low: sks.generate_lookup_table(&sks.tabulate(Lut::BivarMulLow)),
            bivar_mul_high: sks.generate_lookup_table(&sks.tabulate(Lut::BivarMulHigh)),
            prefix_sum_carry_propagation: sks.generate_lookup_table(&sks.tabulate(Lut::PrefixSumCarryPropagation)),
            does_block_generate_carry: sks.generate_lookup_table(&sks.tabulate(Lut::DoesBlockGenerateCarry)),
            does_block_generate_or_propagate: sks.generate_lookup_table(
                &sks.tabulate(Lut::DoesBlockGenerateOrPropagate),
            ),
        }
    }

    /// The table that `lut` names.
    #[verifier::when_used_as_spec(spec_get)]
    pub fn get(&self, lut: Lut) -> (r: &LookupTable)
        ensures
            r == self.spec_get(lut),
    {
        match lut {
            Lut::ExtractMessage => &self.extract_message,
            Lut::ExtractCarry => &self.extract_carry,
            Lut::BivarMulLow => &self.bivar_mul_low,
            Lut::BivarMulHigh => &self.bivar_mul_high,
            Lut::PrefixSumCarryPropagation => &self.prefix_sum_carry_propagation,
            Lut::DoesBlockGenerateCarry => &self.does_block_generate_carry,
            Lut::DoesBlockGenerateOrPropagate => &self.does_block_generate_or_propagate,
        }
    }
}

} // verus!
