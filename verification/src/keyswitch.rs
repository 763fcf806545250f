//! Switching an LWE ciphertext from one key to another: to another LWE key,
//! or into a GLWE ciphertext, where several of them can be packed.

use crate::ciphertext::{CiphertextModulus, LweCiphertext};
use crate::decomposition::SignedDecomposer;
use crate::glwe::GlweCiphertext;
use crate::polynomial::two_to_64;
use crate::server_key::{LweKeyswitchKey, LweKeyswitchKeySpec};
use vstd::arithmetic::div_mod::{lemma_add_mod_noop, lemma_mod_twice, lemma_small_mod, lemma_sub_mod_noop};
use vstd::prelude::*;

verus! {

/// The coefficients of a key that switches from an LWE key, and how they
/// are laid out: for every coefficient of the input key `levels` ciphertexts
/// of `size` coefficients each.
pub struct KeyTable {
    pub data: Seq<u64>,
    pub base_log: usize,
    pub levels: usize,
    pub size: usize,
    /// Whether the digit found first meets the ciphertext kept last.
    pub reversed: bool,
    /// The coefficient of the output that takes the body of the input.
    pub body_place: usize,
}

impl KeyTable {
    /// The decomposer that goes with the key.
    pub open spec fn decomposer(self) -> SignedDecomposer {
        SignedDecomposer { base_log: self.base_log, level_count: self.levels }
    }

    /// The number of coefficients that encrypt one coefficient of the input
    /// key.
    pub open spec fn block(self) -> int {
        self.levels * self.size
    }

    /// The number of coefficients of the input key.
    pub open spec fn input_dimension(self) -> int {
        self.data.len() as int / self.block()
    }

    /// The coefficients split evenly over the coefficients of the input key,
    /// the decomposer is sound, and the body has its place in the output.
    pub open spec fn wf(self) -> bool {
        &&& self.size >= 1
        &&& self.decomposer().wf()
        &&& self.block() <= usize::MAX
        &&& self.data.len() % (self.block() as nat) == 0
        &&& self.body_place < self.size
    }

    /// The place among the ciphertexts of a block of the one that meets the
    /// digit of step `step`.
    pub open spec fn level_of(self, step: int) -> int {
        if self.reversed {
            self.levels - 1 - step
        } else {
            step
        }
    }

    /// Coefficient `j` of the ciphertext that meets the digit of step `step`
    /// of coefficient `i` of the input mask.
    pub open spec fn coefficient(self, i: int, step: int, j: int) -> u64 {
        self.data[(i * self.levels + self.level_of(step)) * self.size + j]
    }

    /// What the first `steps` digits of coefficient `i` of the input mask,
    /// which is `x`, take from coefficient `j` of the output.
    pub open spec fn digits_share(self, x: u64, i: int, j: int, steps: nat) -> int
        decreases steps,
    {
        if steps == 0 {
            0
        } else {
            self.digits_share(x, i, j, (steps - 1) as nat) + self.coefficient(i, steps - 1, j) * self.decomposer().spec_decompose(x)[steps - 1]
        }
    }

    /// What the first `count` coefficients of the input mask take from
    /// coefficient `j` of the output.
    pub open spec fn mask_share(self, input: Seq<u64>, j: int, count: nat) -> int
        decreases count,
    {
        if count == 0 {
            0
        } else {
            self.mask_share(input, j, (count - 1) as nat) + self.digits_share(
                input[count - 1],
                count - 1,
                j,
                self.levels as nat,
            )
        }
    }

    /// What the body of the input gives to coefficient `j` of the output.
    pub open spec fn body_share(self, input: Seq<u64>, j: int) -> int {
        if j == self.body_place {
            input[input.len() - 1] as int
        } else {
            0
        }
    }

    /// The input ciphertext under the output key: its body, less the
    /// products of the digits of its mask with the ciphertexts of the key that
    /// encrypt the input key digit by digit.
    pub open spec fn switched(self, input: Seq<u64>) -> Seq<u64> {
        Seq::new(
            self.size as nat,
            |j: int| ((self.body_share(input, j) - self.mask_share(input, j, (input.len() - 1) as nat)) % two_to_64()) as u64,
        )
    }
}

impl LweKeyswitchKeySpec {
    /// The key as a table: the digit found first meets the ciphertext kept
    /// first, and the body of the output is its last coefficient.
    pub open spec fn table(self) -> KeyTable {
        KeyTable {
            data: self.data,
            base_log: self.decomp_base_log,
            levels: self.decomp_level_count,
            size: self.output_lwe_size,
            reversed: false,
            body_place: (self.output_lwe_size - 1) as usize,
        }
    }

    /// The key can switch ciphertexts: it is sound, and so is its decomposer.
    pub open spec fn can_switch(self) -> bool {
        self.table().wf()
    }

    /// The input ciphertext under the output key of this key.
    pub open spec fn keyswitched(self, input: Seq<u64>) -> Seq<u64> {
        self.table().switched(input)
    }
}

/// The place of a coefficient of the key lies inside its data.
proof fn lemma_key_index(key: KeyTable, i: int, level: int, j: int)
    requires
        key.wf(),
        0 <= i < key.input_dimension(),
        0 <= level < key.levels,
        0 <= j < key.size,
    ensures
        0 <= i * key.levels,
        0 <= i * key.levels + level,
        0 <= (i * key.levels + level) * key.size,
        i * key.levels + level <= (i * key.levels + level) * key.size,
        (i * key.levels + level) * key.size + j < key.data.len(),
{
    let levels = key.levels as int;
    let size = key.size as int;
    let block = levels * size;
    let n = key.input_dimension();
    assert(levels >= 1);
    assert(block >= 1) by (nonlinear_arith)
        requires
            block == levels * size,
            levels >= 1,
            size >= 1,
    ;
    vstd::arithmetic::div_mod::lemma_fundamental_div_mod(key.data.len() as int, block);
    assert(n * block == block * n) by (nonlinear_arith);
    assert(0 <= i * levels && (i * levels + level + 1) <= n * levels) by (nonlinear_arith)
        requires
            0 <= i < n,
            0 <= level < levels,
    ;
    assert(0 <= (i * levels + level) * size && (i * levels + level) * size + size <= (n * levels) * size && i * levels + level <= (i * levels + level) * size) by (nonlinear_arith)
        requires
            0 <= i * levels + level,
            (i * levels + level + 1) <= n * levels,
            size >= 1,
    ;
    assert((n * levels) * size == n * block) by (nonlinear_arith)
        requires
            block == levels * size,
    ;
}

/// The ciphertext `input` under the output key of the key with the
/// coefficients `data`.
fn switch_into(
    data: &Vec<u64>,
    base_log: usize,
    levels: usize,
    size: usize,
    reversed: bool,
    body_place: usize,
    input: &Vec<u64>,
) -> (output: Vec<u64>)
    requires
        (KeyTable { data: data@, base_log, levels, size, reversed, body_place }).wf(),
        input@.len() == (KeyTable { data: data@, base_log, levels, size, reversed, body_place }).input_dimension() + 1,
    ensures
        output@ == (KeyTable { data: data@, base_log, levels, size, reversed, body_place }).switched(input@),
{
    let ghost key = KeyTable { data: data@, base_log, levels, size, reversed, body_place };
    let key_len = data.len();
    let input_len = input.len();
    proof {
        assert(levels * size >= 1) by (nonlinear_arith)
            requires
                levels >= 1,
                size >= 1,
        ;
    }
    let input_dimension = key_len / (levels * size);
    let decomposer = SignedDecomposer::new(base_log, levels);
    // The output starts as the body of the input.
    let mut output: Vec<u64> = Vec::new();
    let mut j: usize = 0;
    while j < size
        invariant
            j <= size,
            body_place == key.body_place,
            input_len == input@.len(),
            input@.len() >= 1,
            output@.len() == j,
            forall|c: int| 0 <= c < j ==> #[trigger] output@[c] as int == key.body_share(input@, c),
        decreases size - j,
    {
        output.push(
            if j == body_place {
                input[input_len - 1]
            } else {
                0
            },
        );
        j += 1;
    }
    proof {
        assert forall|c: int| 0 <= c < size implies #[trigger] output@[c] as int == (key.body_share(input@, c) - key.mask_share(input@, c, 0)) % two_to_64() by {
            lemma_small_mod(output@[c] as nat, two_to_64() as nat);
        }
    }
    let mut i: usize = 0;
    while i < input_dimension
        invariant
            i <= input_dimension,
            key == (KeyTable { data: data@, base_log, levels, size, reversed, body_place }),
            key.wf(),
            key_len == data@.len(),
            decomposer == key.decomposer(),
            input_len == input@.len(),
            input_dimension == input@.len() - 1,
            input_dimension == key.input_dimension(),
            output@.len() == size,
            forall|c: int| 0 <= c < size ==> #[trigger] output@[c] as int == (key.body_share(input@, c) - key.mask_share(input@, c, i as nat)) % two_to_64(),
        decreases input_dimension - i,
    {
        let terms = decomposer.decompose(input[i]);
        let mut step: usize = 0;
        while step < levels
            invariant
                step <= levels,
                i < input_dimension,
                key == (KeyTable { data: data@, base_log, levels, size, reversed, body_place }),
                key.wf(),
                key_len == data@.len(),
                input_len == input@.len(),
                input_dimension == input@.len() - 1,
                input_dimension == key.input_dimension(),
                terms@ == key.decomposer().spec_decompose(input@[i as int]),
                output@.len() == size,
                forall|c: int| 0 <= c < size ==> #[trigger] output@[c] as int == (key.body_share(input@, c) - key.mask_share(input@, c, i as nat) - key.digits_share(
                    input@[i as int],
                    i as int,
                    c,
                    step as nat,
                )) % two_to_64(),
            decreases levels - step,
        {
            let term: u64 = terms[step];
            let level = if reversed {
                levels - 1 - step
            } else {
                step
            };
            proof {
                lemma_key_index(key, i as int, level as int, 0);
            }
            let row = (i * levels + level) * size;
            let mut c: usize = 0;
            while c < size
                invariant
                    c <= size,
                    i < input_dimension,
                    step < levels,
                    level == key.level_of(step as int),
                    level < levels,
                    key == (KeyTable { data: data@, base_log, levels, size, reversed, body_place }),
                    key.wf(),
                    key_len == data@.len(),
                    row == (i * levels + level) * size,
                    input_len == input@.len(),
                    input_dimension == input@.len() - 1,
                    input_dimension == key.input_dimension(),
                    term == key.decomposer().spec_decompose(input@[i as int])[step as int],
                    output@.len() == size,
                    forall|d: int| 0 <= d < c ==> #[trigger] output@[d] as int == (key.body_share(input@, d) - key.mask_share(input@, d, i as nat) - key.digits_share(
                        input@[i as int],
                        i as int,
                        d,
                        (step + 1) as nat,
                    )) % two_to_64(),
                    forall|d: int| c <= d < size ==> #[trigger] output@[d] as int == (key.body_share(input@, d) - key.mask_share(input@, d, i as nat) - key.digits_share(
                        input@[i as int],
                        i as int,
                        d,
                        step as nat,
                    )) % two_to_64(),
                decreases size - c,
            {
                proof {
                    lemma_key_index(key, i as int, level as int, c as int);
                }
                let coefficient: u64 = data[row + c];
                let before: u64 = output[c];
                let product: u64 = coefficient.wrapping_mul(term);
                proof {
                    let so_far = key.body_share(input@, c as int) - key.mask_share(input@, c as int, i as nat) - key.digits_share(
                        input@[i as int],
                        i as int,
                        c as int,
                        step as nat,
                    );
                    let exact = coefficient as int * term as int;
                    assert(coefficient as nat * term as nat == exact);
                    assert(product as int == exact % two_to_64());
                    assert(key.coefficient(i as int, step as int, c as int) == coefficient);
                    lemma_sub_mod_noop(so_far, exact, two_to_64());
                    lemma_mod_twice(so_far, two_to_64());
                    if before as int - product as int >= 0 {
                        lemma_small_mod((before - product) as nat, two_to_64() as nat);
                    } else {
                        lemma_small_mod((before - product + two_to_64()) as nat, two_to_64() as nat);
                        vstd::arithmetic::div_mod::lemma_mod_add_multiples_vanish(before - product, two_to_64());
                    }
                }
                output[c] = before.wrapping_sub(product);
                c += 1;
            }
            step += 1;
        }
        i += 1;
    }
    proof {
        assert(output@ =~= key.switched(input@));
    }
    output
}

/// Keyswitch an LWE ciphertext under the input key of `lwe_keyswitch_key`
/// into `output_lwe_ciphertext`, which is then a ciphertext of the same
/// message under the output key.
pub fn keyswitch_lwe_ciphertext(
    lwe_keyswitch_key: &LweKeyswitchKey,
    input_lwe_ciphertext: &LweCiphertext,
    output_lwe_ciphertext: &mut LweCiphertext,
)
    requires
        lwe_keyswitch_key@.can_switch(),
        input_lwe_ciphertext.data@.len() == lwe_keyswitch_key@.input_key_lwe_dimension() + 1,
        old(output_lwe_ciphertext).data@.len() == lwe_keyswitch_key.output_lwe_size,
        old(output_lwe_ciphertext).ciphertext_modulus == lwe_keyswitch_key.ciphertext_modulus,
    ensures
        final(output_lwe_ciphertext).data@ == lwe_keyswitch_key@.keyswitched(input_lwe_ciphertext.data@),
        final(output_lwe_ciphertext).ciphertext_modulus == old(output_lwe_ciphertext).ciphertext_modulus,
{
    let key = lwe_keyswitch_key;
    output_lwe_ciphertext.data = switch_into(
        &key.data,
        key.decomp_base_log,
        key.decomp_level_count,
        key.output_lwe_size,
        false,
        key.output_lwe_size - 1,
        &input_lwe_ciphertext.data,
    );
}

/// A packing key switching key: for every coefficient of the input LWE key
/// and every decomposition level, one GLWE ciphertext under the output key.
pub struct LwePackingKeyswitchKey {
    pub data: Vec<u64>,
    pub decomp_base_log: usize,
    pub decomp_level_count: usize,
    pub output_glwe_size: usize,
    pub output_polynomial_size: usize,
    pub ciphertext_modulus: CiphertextModulus,
}

/// A list of LWE ciphertexts of one size, one after the other.
pub struct LweCiphertextList {
    pub data: Vec<u64>,
    pub lwe_size: usize,
    pub ciphertext_modulus: CiphertextModulus,
}

impl LweCiphertextList {
    /// The ciphertexts have a body, and the data splits into them.
    pub open spec fn wf(&self) -> bool {
        &&& self.lwe_size >= 1
        &&& self.data@.len() % (self.lwe_size as nat) == 0
    }

    /// The number of ciphertexts.
    pub open spec fn count(&self) -> int {
        self.data@.len() as int / self.lwe_size as int
    }

    /// Ciphertext `i` of the list.
    pub open spec fn ciphertext(&self, i: int) -> Seq<u64> {
        self.data@.subrange(i * self.lwe_size, (i + 1) * self.lwe_size)
    }
}

impl LwePackingKeyswitchKey {
    /// The key as a table: the digit found first meets the ciphertext kept
    /// last, and the body goes to the constant coefficient of the body
    /// polynomial.
    pub open spec fn table(&self) -> KeyTable {
        KeyTable {
            data: self.data@,
            base_log: self.decomp_base_log,
            levels: self.decomp_level_count,
            size: (self.output_glwe_size * self.output_polynomial_size) as usize,
            reversed: true,
            body_place: ((self.output_glwe_size - 1) * self.output_polynomial_size) as usize,
        }
    }

    /// The key is sound: its output has a body polynomial with at least one
    /// coefficient and fits in memory.
    pub open spec fn wf(&self) -> bool {
        &&& self.output_glwe_size >= 1
        &&& self.output_polynomial_size >= 1
        &&& self.output_glwe_size * self.output_polynomial_size <= usize::MAX
        &&& self.table().wf()
    }

    /// The GLWE ciphertext that holds the message of the LWE ciphertext
    /// `input` in its constant coefficient.
    pub open spec fn switched(&self, input: Seq<u64>) -> Seq<u64> {
        self.table().switched(input)
    }

    /// Coefficient `at` of `glwe` after every polynomial was multiplied by
    /// `X^degree` modulo `X^N + 1`: the coefficient that stood `degree`
    /// places lower, negated if it came around the top.
    pub open spec fn rotated(&self, glwe: Seq<u64>, degree: int, at: int) -> int {
        let n = self.output_polynomial_size as int;
        if at % n >= degree {
            glwe[at - degree] as int
        } else {
            -(glwe[at - degree + n] as int)
        }
    }

    /// The sum, at coefficient `at`, of the first `count` ciphertexts of the
    /// list, each switched and then moved up by its place in the list.
    pub open spec fn packed_sum(&self, list: LweCiphertextList, at: int, count: nat) -> int
        decreases count,
    {
        if count == 0 {
            0
        } else {
            self.packed_sum(list, at, (count - 1) as nat) + self.rotated(
                self.switched(list.ciphertext(count - 1)),
                count - 1,
                at,
            )
        }
    }

    /// The GLWE ciphertext that packs the list: the message of ciphertext
    /// `i` is found in coefficient `i`.
    pub open spec fn packed(&self, list: LweCiphertextList) -> Seq<u64> {
        Seq::new(
            (self.output_glwe_size * self.output_polynomial_size) as nat,
            |at: int| (self.packed_sum(list, at, list.count() as nat) % two_to_64()) as u64,
        )
    }
}

/// Keyswitch the LWE ciphertexts of a list into one GLWE ciphertext and pack
/// them there, ciphertext `i` of the list in coefficient `i`.
pub fn pack_lwe_list_into_glwe(
    lwe_pksk: &LwePackingKeyswitchKey,
    input_lwe_list1: &LweCiphertextList,
    output_pks: &mut GlweCiphertext,
)
    requires
        lwe_pksk.wf(),
        input_lwe_list1.wf(),
        input_lwe_list1.lwe_size == lwe_pksk.table().input_dimension() + 1,
        input_lwe_list1.count() <= lwe_pksk.output_polynomial_size,
        old(output_pks).wf(),
        old(output_pks).polynomial_size == lwe_pksk.output_polynomial_size,
        old(output_pks).spec_glwe_size() == lwe_pksk.output_glwe_size,
    ensures
        final(output_pks).data@ == lwe_pksk.packed(*input_lwe_list1),
        final(output_pks).data@.len() == old(output_pks).data@.len(),
        final(output_pks).polynomial_size == old(output_pks).polynomial_size,
        final(output_pks).ciphertext_modulus == old(output_pks).ciphertext_modulus,
        final(output_pks).wf(),
{
    let key = lwe_pksk;
    let list = input_lwe_list1;
    let n = key.output_polynomial_size;
    let size = key.output_glwe_size * n;
    proof {
        crate::glwe::lemma_polynomial_len(old(output_pks)@, 0);
    }
    let lwe_size = list.lwe_size;
    let list_len = list.data.len();
    let count = list_len / lwe_size;
    proof {
        vstd::arithmetic::div_mod::lemma_fundamental_div_mod(list_len as int, lwe_size as int);
        assert(count * lwe_size == lwe_size * count) by (nonlinear_arith);
        assert((key.output_glwe_size - 1) * n >= 0 && (key.output_glwe_size - 1) * n == key.output_glwe_size * n - n) by (nonlinear_arith)
            requires
                key.output_glwe_size >= 1,
                n >= 1,
        ;
    }
    let body_place = size - n;
    // Every ciphertext of the list as a GLWE ciphertext of its own.
    let mut switched: Vec<Vec<u64>> = Vec::new();
    let mut i: usize = 0;
    while i < count
        invariant
            i <= count,
            key.wf(),
            list.wf(),
            n == key.output_polynomial_size,
            size == key.output_glwe_size * n,
            lwe_size == list.lwe_size,
            lwe_size == key.table().input_dimension() + 1,
            list_len == list.data@.len(),
            count == list.count(),
            count * lwe_size == list_len,
            body_place == (key.output_glwe_size - 1) * n,
            switched@.len() == i,
            forall|b: int| 0 <= b < i ==> (#[trigger] switched@[b])@ == key.switched(list.ciphertext(b)),
        decreases count - i,
    {
        proof {
            assert(0 <= i * lwe_size && (i + 1) * lwe_size == i * lwe_size + lwe_size && (i + 1) * lwe_size <= count * lwe_size) by (nonlinear_arith)
                requires
                    0 <= i < count,
                    lwe_size >= 1,
            ;
        }
        let start = i * lwe_size;
        let mut input: Vec<u64> = Vec::new();
        let mut c: usize = 0;
        while c < lwe_size
            invariant
                c <= lwe_size,
                start + lwe_size <= list_len,
                list_len == list.data@.len(),
                input@ == list.data@.subrange(start as int, start + c),
            decreases lwe_size - c,
        {
            input.push(list.data[start + c]);
            proof {
                assert(list.data@.subrange(start as int, start + c + 1) =~= list.data@.subrange(start as int, start + c).push(
                    list.data@[start + c],
                ));
            }
            c += 1;
        }
        switched.push(
            switch_into(
                &key.data,
                key.decomp_base_log,
                key.decomp_level_count,
                size,
                true,
                body_place,
                &input,
            ),
        );
        i += 1;
    }
    let mut data: Vec<u64> = Vec::new();
    let mut at: usize = 0;
    let ghost expected = key.packed(*list);
    while at < size
        invariant
            at <= size,
            key.wf(),
            n == key.output_polynomial_size,
            size == key.output_glwe_size * n,
            count == list.count(),
            count <= n,
            switched@.len() == count,
            forall|b: int| 0 <= b < count ==> (#[trigger] switched@[b])@ == key.switched(list.ciphertext(b)),
            expected == key.packed(*list),
            data@.len() == at,
            forall|b: int| 0 <= b < at ==> #[trigger] data@[b] == expected[b],
        decreases size - at,
    {
        let place = at % n;
        let mut acc: u64 = 0;
        let mut i: usize = 0;
        proof {
            lemma_small_mod(0, two_to_64() as nat);
            vstd::arithmetic::div_mod::lemma_fundamental_div_mod(at as int, n as int);
            let polynomial = at as int / n as int;
            assert(0 <= polynomial * n && polynomial * n + n <= size) by (nonlinear_arith)
                requires
                    at == n * polynomial + place,
                    0 <= place < n,
                    at < size,
                    size == key.output_glwe_size * n,
                    n >= 1,
                    at >= 0,
            ;
        }
        while i < count
            invariant
                i <= count,
                at < size,
                place == at % n,
                at - place >= 0,
                at - place + n <= size,
                key.wf(),
                n == key.output_polynomial_size,
                size == key.output_glwe_size * n,
                count <= n,
                switched@.len() == count,
                forall|b: int| 0 <= b < count ==> (#[trigger] switched@[b])@ == key.switched(list.ciphertext(b)),
                acc as int == key.packed_sum(*list, at as int, i as nat) % two_to_64(),
            decreases count - i,
        {
            let glwe = &switched[i];
            assert(glwe@ == key.switched(list.ciphertext(i as int)));
            let ghost so_far = key.packed_sum(*list, at as int, i as nat);
            if place >= i {
                let moved: u64 = glwe[at - i];
                proof {
                    lemma_add_mod_noop(so_far, moved as int, two_to_64());
                    lemma_small_mod(moved as nat, two_to_64() as nat);
                    if acc + moved >= two_to_64() {
                        lemma_small_mod((acc + moved - two_to_64()) as nat, two_to_64() as nat);
                        vstd::arithmetic::div_mod::lemma_mod_add_multiples_vanish(acc + moved - two_to_64(), two_to_64());
                    } else {
                        lemma_small_mod((acc + moved) as nat, two_to_64() as nat);
                    }
                }
                acc = acc.wrapping_add(moved);
            } else {
                let moved: u64 = glwe[at + (n - i)];
                proof {
                    lemma_sub_mod_noop(so_far, moved as int, two_to_64());
                    lemma_small_mod(moved as nat, two_to_64() as nat);
                    if acc as int - moved as int >= 0 {
                        lemma_small_mod((acc - moved) as nat, two_to_64() as nat);
                    } else {
                        lemma_small_mod((acc - moved + two_to_64()) as nat, two_to_64() as nat);
                        vstd::arithmetic::div_mod::lemma_mod_add_multiples_vanish(acc - moved, two_to_64());
                    }
                }
                acc = acc.wrapping_sub(moved);
            }
            i += 1;
        }
        data.push(acc);
        at += 1;
    }
    proof {
        assert(data@ =~= expected);
        vstd::arithmetic::div_mod::lemma_fundamental_div_mod_converse(
            data@.len() as int,
            n as int,
            key.output_glwe_size as int,
            0,
        );
        assert(key.output_glwe_size * n >= n) by (nonlinear_arith)
            requires
                key.output_glwe_size >= 1,
                n >= 1,
        ;
    }
    output_pks.data = data;
}

} // verus!
