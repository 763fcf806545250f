//! The signed decomposition of a coefficient into digits of a power-of-two
//! base, as key switching uses it.

use crate::polynomial::two_to_64;
use vstd::arithmetic::power2::{lemma2_to64, lemma2_to64_rest, lemma_pow2_adds, lemma_pow2_pos, lemma_pow2_unfold, pow2};
use vstd::prelude::*;

verus! {

/// Decomposes a 64-bit coefficient into `level_count` signed digits of
/// `base_log` bits each, which stand for its most significant bits.
#[derive(Clone, Copy, Debug, PartialEq, Eq, Structural)]
pub struct SignedDecomposer {
    pub base_log: usize,
    pub level_count: usize,
}

/// The carry out of the lowest digit of `state`: one if the digit lies above
/// half the base, or on it while the next digit lies on or above it.
pub open spec fn digit_carry(base: int, state: int) -> int {
    let low = state % base;
    let rest = state / base;
    if low > base / 2 || (low == base / 2 && rest % base >= base / 2) {
        1
    } else {
        0
    }
}

/// The lowest digit of `state`, brought into the range from minus half the
/// base to half the base.
pub open spec fn signed_digit(base: int, state: int) -> int {
    state % base - digit_carry(base, state) * base
}

/// What is left of `state` once its lowest digit is taken.
pub open spec fn after_digit(base: int, state: int) -> int {
    state / base + digit_carry(base, state)
}

/// What is left of `state` once `steps` digits are taken.
pub open spec fn after_digits(base: int, state: int, steps: nat) -> int
    decreases steps,
{
    if steps == 0 {
        state
    } else {
        after_digit(base, after_digits(base, state, (steps - 1) as nat))
    }
}

/// The digits of the first `steps` steps, each with the weight of its place.
pub open spec fn weighed_digits(base: int, state: int, steps: nat) -> int
    decreases steps,
{
    if steps == 0 {
        0
    } else {
        weighed_digits(base, state, (steps - 1) as nat) + signed_digit(
            base,
            after_digits(base, state, (steps - 1) as nat),
        ) * vstd::arithmetic::power::pow(base, (steps - 1) as nat)
    }
}

/// A digit lies between minus half the base and half the base, and with
/// what is left of the state it makes up the state.
pub proof fn lemma_signed_digit(base: int, state: int)
    requires
        base >= 2,
        base % 2 == 0,
        state >= 0,
    ensures
        -(base / 2) <= signed_digit(base, state) <= base / 2,
        after_digit(base, state) >= 0,
        signed_digit(base, state) + base * after_digit(base, state) == state,
{
    vstd::arithmetic::div_mod::lemma_fundamental_div_mod(state, base);
    let carry = digit_carry(base, state);
    assert(base * (state / base + carry) == base * (state / base) + base * carry) by (nonlinear_arith);
    assert(carry * base == base * carry) by (nonlinear_arith);
    vstd::arithmetic::div_mod::lemma_div_pos_is_pos(state, base);
}

/// The digits make up the state: weighed by the powers of the base, the
/// digits of the first steps and what is left after them add up to it.  So
/// the digits of a coefficient stand for its rounded most significant bits,
/// up to a multiple of the base to the number of digits.
pub proof fn lemma_digits_recompose(base: int, state: int, steps: nat)
    requires
        base >= 2,
        base % 2 == 0,
        state >= 0,
    ensures
        after_digits(base, state, steps) >= 0,
        weighed_digits(base, state, steps) + vstd::arithmetic::power::pow(base, steps) * after_digits(base, state, steps) == state,
    decreases steps,
{
    if steps == 0 {
        vstd::arithmetic::power::lemma_pow0(base);
    } else {
        let before = (steps - 1) as nat;
        lemma_digits_recompose(base, state, before);
        let rest = after_digits(base, state, before);
        lemma_signed_digit(base, rest);
        vstd::arithmetic::power::lemma_pow1(base);
        vstd::arithmetic::power::lemma_pow_adds(base, before, 1);
        let weight = vstd::arithmetic::power::pow(base, before);
        let digit = signed_digit(base, rest);
        let next = after_digit(base, rest);
        assert(weight * rest == digit * weight + (weight * base) * next) by (nonlinear_arith)
            requires
                digit + base * next == rest,
        ;
    }
}

/// The two's complement of a digit.
pub open spec fn as_coefficient(digit: int) -> u64 {
    (digit % two_to_64()) as u64
}

impl SignedDecomposer {
    /// The digits have at least one bit, there is at least one, and together
    /// they leave at least one bit of the coefficient out.
    pub open spec fn wf(&self) -> bool {
        &&& self.base_log >= 1
        &&& self.level_count >= 1
        &&& self.base_log * self.level_count < 64
    }

    /// The base of the digits.
    pub open spec fn base(&self) -> int {
        pow2(self.base_log as nat) as int
    }

    /// The number of low bits that the digits do not stand for.
    pub open spec fn non_representable_bits(&self) -> nat {
        (64 - self.base_log * self.level_count) as nat
    }

    /// The most significant bits of `input`, rounded to the nearest at the
    /// first bit that the digits do not stand for.
    pub open spec fn rounded(&self, input: u64) -> int {
        let unit = pow2(self.non_representable_bits()) as int;
        input as int / unit + (input as int / (unit / 2)) % 2
    }

    /// The closest value to `input` that the digits can stand for.
    pub open spec fn spec_closest_representable(&self, input: u64) -> u64 {
        ((self.rounded(input) * pow2(self.non_representable_bits())) % two_to_64()) as u64
    }

    /// The digit that is found in step `step`, the first for the least
    /// significant of the bits that the digits stand for.
    pub open spec fn digit(&self, input: u64, step: nat) -> int {
        let start = self.rounded(input) % pow2((self.base_log * self.level_count) as nat) as int;
        signed_digit(self.base(), after_digits(self.base(), start, step))
    }

    /// The digits of `input` in the order in which they are found, as
    /// coefficients.
    pub open spec fn spec_decompose(&self, input: u64) -> Seq<u64> {
        Seq::new(self.level_count as nat, |step: int| as_coefficient(self.digit(input, step as nat)))
    }

    /// A decomposer for `level_count` digits of `base_log` bits.
    pub fn new(base_log: usize, level_count: usize) -> (r: Self)
        ensures
            r.base_log == base_log,
            r.level_count == level_count,
    {
        SignedDecomposer { base_log, level_count }
    }

    /// The closest value to `input` that the digits can stand for.
    pub fn closest_representable(&self, input: u64) -> (r: u64)
        requires
            self.wf(),
        ensures
            r == self.spec_closest_representable(input),
    {
        proof {
            assert(self.base_log * self.level_count >= 1) by (nonlinear_arith)
                requires
                    self.base_log >= 1,
                    self.level_count >= 1,
            ;
        }
        let bits = self.base_log * self.level_count;
        let non_rep = 64 - bits;
        let unit = power_of_two(non_rep);
        let half = power_of_two(non_rep - 1);
        proof {
            lemma_pow2_unfold(non_rep as nat);
            lemma_pow2_pos((non_rep - 1) as nat);
            vstd::arithmetic::div_mod::lemma_div_is_ordered_by_denominator(input as int, 2, unit as int);
        }
        let rounded: u64 = input / unit + (input / half) % 2;
        rounded.wrapping_mul(unit)
    }

    /// The digits of `input`, the least significant first.
    pub fn decompose(&self, input: u64) -> (terms: Vec<u64>)
        requires
            self.wf(),
        ensures
            terms@ == self.spec_decompose(input),
    {
        proof {
            assert(self.base_log * self.level_count >= 1) by (nonlinear_arith)
                requires
                    self.base_log >= 1,
                    self.level_count >= 1,
            ;
        }
        let bits = self.base_log * self.level_count;
        let non_rep = 64 - bits;
        let unit = power_of_two(non_rep);
        let half = power_of_two(non_rep - 1);
        let span = power_of_two(bits);
        proof {
            lemma_pow2_adds(self.base_log as nat, (self.base_log * (self.level_count - 1)) as nat);
            assert(self.base_log + self.base_log * (self.level_count - 1) == self.base_log * self.level_count) by (nonlinear_arith);
            assert(self.base_log <= self.base_log * self.level_count) by (nonlinear_arith)
                requires
                    self.level_count >= 1,
            ;
        }
        let base = power_of_two(self.base_log);
        proof {
            lemma_pow2_unfold(non_rep as nat);
            lemma_pow2_pos((non_rep - 1) as nat);
            lemma_pow2_unfold(self.base_log as nat);
            lemma_pow2_pos((self.base_log - 1) as nat);
            vstd::arithmetic::div_mod::lemma_div_is_ordered_by_denominator(input as int, 2, unit as int);
        }
        let rounded: u64 = input / unit + (input / half) % 2;
        let mut state: u64 = rounded % span;
        let ghost start = state as int;
        let mut terms: Vec<u64> = Vec::new();
        let mut step: usize = 0;
        while step < self.level_count
            invariant
                step <= self.level_count,
                self.wf(),
                base == self.base(),
                base >= 2,
                base % 2 == 0,
                start == self.rounded(input) % pow2((self.base_log * self.level_count) as nat) as int,
                state as int == after_digits(self.base(), start, step as nat),
                state <= span,
                span >= 1,
                terms@.len() == step,
                forall|k: int| 0 <= k < step ==> #[trigger] terms@[k] == as_coefficient(self.digit(input, k as nat)),
            decreases self.level_count - step,
        {
            let low: u64 = state % base;
            let rest: u64 = state / base;
            let carry: u64 = if low > base / 2 || (low == base / 2 && rest % base >= base / 2) {
                1
            } else {
                0
            };
            proof {
                assert(carry as int == digit_carry(base as int, state as int));
                assert(carry * base == if carry == 1 { base as int } else { 0 }) by (nonlinear_arith)
                    requires
                        carry == 0 || carry == 1,
                ;
                assert(rest + carry <= span) by (nonlinear_arith)
                    requires
                        rest == state / base,
                        state <= span,
                        base >= 2,
                        carry <= 1,
                        span >= 1,
                ;
                let digit = signed_digit(base as int, state as int);
                assert(digit == low - carry * base);
                if low >= carry * base {
                    vstd::arithmetic::div_mod::lemma_small_mod((low - carry * base) as nat, two_to_64() as nat);
                } else {
                    vstd::arithmetic::div_mod::lemma_small_mod((low - carry * base + two_to_64()) as nat, two_to_64() as nat);
                    vstd::arithmetic::div_mod::lemma_mod_add_multiples_vanish(digit, two_to_64());
                }
            }
            let term: u64 = low.wrapping_sub(carry * base);
            terms.push(term);
            state = rest + carry;
            step += 1;
        }
        proof {
            assert(terms@ =~= self.spec_decompose(input));
        }
        terms
    }
}

/// `2^exponent`.
pub fn power_of_two(exponent: usize) -> (r: u64)
    requires
        exponent < 64,
    ensures
        r == pow2(exponent as nat),
        r >= 1,
{
    proof {
        lemma2_to64();
        lemma2_to64_rest();
    }
    let mut r: u64 = 1;
    let mut e: usize = 0;
    while e < exponent
        invariant
            e <= exponent,
            exponent < 64,
            r == pow2(e as nat),
            r >= 1,
        decreases exponent - e,
    {
        proof {
            lemma2_to64_rest();
            lemma_pow2_unfold((e + 1) as nat);
            vstd::arithmetic::power2::lemma_pow2_strictly_increases(e as nat, 63);
        }
        r = r * 2;
        e += 1;
    }
    r
}

} // verus!
