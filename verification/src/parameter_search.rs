//! The parameter sets that a timing experiment runs through.

use itertools::Itertools;
use rand::seq::SliceRandom;
use rand::SeedableRng;
use vstd::arithmetic::power2::pow2;
use vstd::prelude::*;

verus! {

/// One point of the search space.
#[derive(Clone, Copy, Debug, PartialEq, Eq, Structural)]
pub struct Params {
    pub lwe_dimension: usize,
    pub glwe_dimension: usize,
    pub polynomial_size: usize,
    pub grouping_factor: usize,
    pub pbs_base_log: usize,
    pub pbs_level: usize,
    pub ks_base_log: usize,
    pub ks_level: usize,
}

/// What tells two parameter sets apart for a timing experiment: sets that
/// agree in it take the same time and are measured once.
#[derive(Clone, Copy, Debug, PartialEq, Eq, Hash, Structural)]
pub struct ParamsHash {
    pub lwe_dimension: usize,
    pub glwe_dimension: usize,
    pub polynomial_size: usize,
    pub pbs_level: usize,
    pub ks_level: usize,
    pub ks_base_log_smaller_than_5: bool,
}

impl From<Params> for ParamsHash {
    fn from(value: Params) -> (r: Self) {
        ParamsHash {
            lwe_dimension: value.lwe_dimension,
            glwe_dimension: value.glwe_dimension,
            polynomial_size: value.polynomial_size,
            pbs_level: value.pbs_level,
            ks_level: value.ks_level,
            ks_base_log_smaller_than_5: value.ks_base_log <= 5,
        }
    }
}

impl vstd::std_specs::convert::FromSpecImpl<Params> for ParamsHash {
    open spec fn obeys_from_spec() -> bool {
        true
    }

    open spec fn from_spec(value: Params) -> Self {
        ParamsHash {
            lwe_dimension: value.lwe_dimension,
            glwe_dimension: value.glwe_dimension,
            polynomial_size: value.polynomial_size,
            pbs_level: value.pbs_level,
            ks_level: value.ks_level,
            ks_base_log_smaller_than_5: value.ks_base_log <= 5,
        }
    }
}

/// A decomposition base and a number of levels.
#[derive(Clone, Copy, Debug, PartialEq, Eq, Structural)]
pub struct BaseLevel {
    pub base: usize,
    pub level: usize,
}

/// The pair of base `b` and level `l` is kept: the digits fit the mantissa,
/// there are ten levels at most, and with base one their number is a
/// multiple of five.
pub open spec fn is_kept(b: usize, l: usize, preserved_mantissa: usize) -> bool {
    &&& b * l <= preserved_mantissa
    &&& l <= 10
    &&& b == 1 ==> (b * l) % 5 == 0
}

/// The pairs that are kept among the first `count` of all pairs, counted
/// base by base and level by level.
pub open spec fn kept_pairs(bases: Seq<usize>, levels: Seq<usize>, preserved_mantissa: usize, count: int) -> Seq<BaseLevel>
    decreases count,
{
    if count <= 0 || levels.len() == 0 {
        Seq::empty()
    } else {
        let before = kept_pairs(bases, levels, preserved_mantissa, count - 1);
        let b = bases[(count - 1) / levels.len() as int];
        let l = levels[(count - 1) % levels.len() as int];
        if is_kept(b, l, preserved_mantissa) {
            before.push(BaseLevel { base: b, level: l })
        } else {
            before
        }
    }
}

/// The pairs of a base and a number of levels to try: every base with every
/// level, bases first, as far as the pair is kept.
pub fn filter_b_l_limited(bases: &[usize], levels: &[usize], preserved_mantissa: usize) -> (bases_levels: Vec<BaseLevel>)
    ensures
        bases_levels@ == kept_pairs(bases@, levels@, preserved_mantissa, (bases@.len() * levels@.len()) as int),
{
    let mut bases_levels: Vec<BaseLevel> = Vec::new();
    if levels.len() == 0 {
        return bases_levels;
    }
    let mut i: usize = 0;
    proof {
        assert(0 * levels@.len() == 0) by (nonlinear_arith);
    }
    while i < bases.len()
        invariant
            i <= bases@.len(),
            levels@.len() > 0,
            bases_levels@ == kept_pairs(bases@, levels@, preserved_mantissa, (i * levels@.len()) as int),
        decreases bases@.len() - i,
    {
        let b = bases[i];
        let mut j: usize = 0;
        while j < levels.len()
            invariant
                j <= levels@.len(),
                i < bases@.len(),
                levels@.len() > 0,
                b == bases@[i as int],
                bases_levels@ == kept_pairs(bases@, levels@, preserved_mantissa, (i * levels@.len() + j) as int),
            decreases levels@.len() - j,
        {
            let l = levels[j];
            proof {
                let at = i * levels@.len() + j;
                vstd::arithmetic::div_mod::lemma_fundamental_div_mod_converse(
                    at as int,
                    levels@.len() as int,
                    i as int,
                    j as int,
                );
            }
            let fits = match b.checked_mul(l) {
                Some(product) => product <= preserved_mantissa,
                None => false,
            };
            if fits {
                if b == 1 && l <= 10 {
                    if (b * l) % 5 == 0 {
                        bases_levels.push(BaseLevel { base: b, level: l });
                    }
                } else if l <= 10 {
                    bases_levels.push(BaseLevel { base: b, level: l });
                }
            }
            j += 1;
        }
        proof {
            assert((i + 1) * levels@.len() == i * levels@.len() + levels@.len()) by (nonlinear_arith);
        }
        i += 1;
    }
    bases_levels
}

/// The number of bits of a ciphertext modulus: 64 for the native one, which
/// is given as zero, and the binary logarithm otherwise.
pub open spec fn spec_modulus_log2(modulus: u128) -> nat {
    if modulus == 0 {
        64
    } else {
        crate::key_switching_key::log2_floor(modulus as nat)
    }
}

/// The number of bits of a ciphertext modulus.
pub fn modulus_log2(modulus: u128) -> (bits: usize)
    ensures
        bits == spec_modulus_log2(modulus),
        bits <= 127,
{
    if modulus == 0 {
        return 64;
    }
    proof {
        vstd::arithmetic::power2::lemma2_to64();
        vstd::arithmetic::power2::lemma2_to64_rest();
        vstd::arithmetic::power2::lemma_pow2_adds(64, 64);
        crate::key_switching_key::lemma_log2_floor_bound(modulus as nat, 128);
    }
    let mut rest: u128 = modulus;
    let mut bits: usize = 0;
    while rest > 1
        invariant
            bits + crate::key_switching_key::log2_floor(rest as nat) == crate::key_switching_key::log2_floor(modulus as nat),
            crate::key_switching_key::log2_floor(modulus as nat) <= 127,
        decreases rest,
    {
        rest = rest / 2;
        bits = bits + 1;
    }
    bits
}

/// The number of LWE dimensions that are tried: from 512 to 1024 in steps of
/// 64.
pub const LWE_DIMENSION_COUNT: usize = 9;

/// The number of GLWE dimensions that are tried: from 1 to 5.
pub const GLWE_DIMENSION_COUNT: usize = 5;

/// The number of polynomial sizes that are tried: the powers of two from
/// `2^8` to `2^14`.
pub const POLYNOMIAL_SIZE_COUNT: usize = 7;

/// Point `index` of the search space: every LWE dimension with every GLWE
/// dimension, polynomial size, grouping factor, pair for the bootstrap and
/// pair for the key switch, the last of them changing from one point to the
/// next.
pub open spec fn search_point(grouping_factors: Seq<usize>, pairs: Seq<BaseLevel>, index: int) -> Params {
    let ks = index % pairs.len() as int;
    let rest = index / pairs.len() as int;
    let pbs = rest % pairs.len() as int;
    let rest = rest / pairs.len() as int;
    let grouping = rest % grouping_factors.len() as int;
    let rest = rest / grouping_factors.len() as int;
    let polynomial = rest % POLYNOMIAL_SIZE_COUNT as int;
    let rest = rest / POLYNOMIAL_SIZE_COUNT as int;
    let glwe = rest % GLWE_DIMENSION_COUNT as int;
    let lwe = rest / GLWE_DIMENSION_COUNT as int;
    Params {
        lwe_dimension: (512 + 64 * lwe) as usize,
        glwe_dimension: (1 + glwe) as usize,
        polynomial_size: pow2((8 + polynomial) as nat) as usize,
        grouping_factor: grouping_factors[grouping],
        pbs_base_log: pairs[pbs].base,
        pbs_level: pairs[pbs].level,
        ks_base_log: pairs[ks].base,
        ks_level: pairs[ks].level,
    }
}

/// The number of points of the search space.
pub open spec fn search_space_size(grouping_factors: Seq<usize>, pairs: Seq<BaseLevel>) -> int {
    LWE_DIMENSION_COUNT * GLWE_DIMENSION_COUNT * POLYNOMIAL_SIZE_COUNT * grouping_factors.len() * pairs.len() * pairs.len()
}

/// The place of a point whose choices are given one by one.
pub open spec fn search_index(
    grouping_count: int,
    pair_count: int,
    lwe: int,
    glwe: int,
    polynomial: int,
    grouping: int,
    pbs: int,
    ks: int,
) -> int {
    ((((lwe * GLWE_DIMENSION_COUNT + glwe) * POLYNOMIAL_SIZE_COUNT + polynomial) * grouping_count + grouping) * pair_count + pbs) * pair_count + ks
}

/// A place is told apart into the choices that make it up.
proof fn lemma_search_index(
    grouping_factors: Seq<usize>,
    pairs: Seq<BaseLevel>,
    lwe: int,
    glwe: int,
    polynomial: int,
    grouping: int,
    pbs: int,
    ks: int,
)
    requires
        0 <= lwe,
        0 <= glwe < GLWE_DIMENSION_COUNT,
        0 <= polynomial < POLYNOMIAL_SIZE_COUNT,
        0 <= grouping < grouping_factors.len(),
        0 <= pbs < pairs.len(),
        0 <= ks < pairs.len(),
    ensures
        search_point(
            grouping_factors,
            pairs,
            search_index(grouping_factors.len() as int, pairs.len() as int, lwe, glwe, polynomial, grouping, pbs, ks),
        ) == (Params {
            lwe_dimension: (512 + 64 * lwe) as usize,
            glwe_dimension: (1 + glwe) as usize,
            polynomial_size: pow2((8 + polynomial) as nat) as usize,
            grouping_factor: grouping_factors[grouping],
            pbs_base_log: pairs[pbs].base,
            pbs_level: pairs[pbs].level,
            ks_base_log: pairs[ks].base,
            ks_level: pairs[ks].level,
        }),
        search_index(grouping_factors.len() as int, pairs.len() as int, lwe, glwe, polynomial, grouping, pbs, ks) >= 0,
{
    let g = grouping_factors.len() as int;
    let p = pairs.len() as int;
    let n1 = lwe * GLWE_DIMENSION_COUNT + glwe;
    let n2 = n1 * POLYNOMIAL_SIZE_COUNT + polynomial;
    let n3 = n2 * g + grouping;
    let n4 = n3 * p + pbs;
    let n5 = n4 * p + ks;
    assert(n3 >= 0 && n4 >= 0 && n5 >= 0) by (nonlinear_arith)
        requires
            n2 >= 0,
            g >= 0,
            grouping >= 0,
            p >= 0,
            pbs >= 0,
            ks >= 0,
            n3 == n2 * g + grouping,
            n4 == n3 * p + pbs,
            n5 == n4 * p + ks,
    ;
    vstd::arithmetic::div_mod::lemma_fundamental_div_mod_converse(n5, p, n4, ks);
    vstd::arithmetic::div_mod::lemma_fundamental_div_mod_converse(n4, p, n3, pbs);
    vstd::arithmetic::div_mod::lemma_fundamental_div_mod_converse(n3, g, n2, grouping);
    vstd::arithmetic::div_mod::lemma_fundamental_div_mod_converse(n2, POLYNOMIAL_SIZE_COUNT as int, n1, polynomial);
    vstd::arithmetic::div_mod::lemma_fundamental_div_mod_converse(n1, GLWE_DIMENSION_COUNT as int, lwe, glwe);
}

/// All points of the search space, in their order.
pub fn search_space(grouping_factors: &[usize], pairs: &Vec<BaseLevel>) -> (points: Vec<Params>)
    ensures
        points@.len() == search_space_size(grouping_factors@, pairs@),
        forall|index: int| 0 <= index < points@.len() ==> #[trigger] points@[index] == search_point(grouping_factors@, pairs@, index),
{
    let g = grouping_factors.len();
    let p = pairs.len();
    let mut points: Vec<Params> = Vec::new();
    let mut lwe: usize = 0;
    proof {
        lemma_search_index_carries(g as int, p as int, 0, 0, 0, 0, 0);
    }
    while lwe < LWE_DIMENSION_COUNT
        invariant
            lwe <= LWE_DIMENSION_COUNT,
            g == grouping_factors@.len(),
            p == pairs@.len(),
            points@.len() == search_index(g as int, p as int, lwe as int, 0, 0, 0, 0, 0),
            forall|index: int| 0 <= index < points@.len() ==> #[trigger] points@[index] == search_point(grouping_factors@, pairs@, index),
        decreases LWE_DIMENSION_COUNT - lwe,
    {
        let mut glwe: usize = 0;
        while glwe < GLWE_DIMENSION_COUNT
            invariant
                lwe < LWE_DIMENSION_COUNT,
                glwe <= GLWE_DIMENSION_COUNT,
                g == grouping_factors@.len(),
                p == pairs@.len(),
                points@.len() == search_index(g as int, p as int, lwe as int, glwe as int, 0, 0, 0, 0),
                forall|index: int| 0 <= index < points@.len() ==> #[trigger] points@[index] == search_point(grouping_factors@, pairs@, index),
            decreases GLWE_DIMENSION_COUNT - glwe,
        {
            let mut polynomial: usize = 0;
            let mut polynomial_size: usize = 256;
            proof {
                vstd::arithmetic::power2::lemma2_to64();
            }
            while polynomial < POLYNOMIAL_SIZE_COUNT
                invariant
                    lwe < LWE_DIMENSION_COUNT,
                    glwe < GLWE_DIMENSION_COUNT,
                    polynomial <= POLYNOMIAL_SIZE_COUNT,
                    polynomial_size == pow2((8 + polynomial) as nat),
                    polynomial_size <= 0x8000,
                    polynomial == POLYNOMIAL_SIZE_COUNT || polynomial_size <= 0x4000,
                    g == grouping_factors@.len(),
                    p == pairs@.len(),
                    points@.len() == search_index(g as int, p as int, lwe as int, glwe as int, polynomial as int, 0, 0, 0),
                    forall|index: int| 0 <= index < points@.len() ==> #[trigger] points@[index] == search_point(grouping_factors@, pairs@, index),
                decreases POLYNOMIAL_SIZE_COUNT - polynomial,
            {
                let mut grouping: usize = 0;
                while grouping < g
                    invariant
                        lwe < LWE_DIMENSION_COUNT,
                        glwe < GLWE_DIMENSION_COUNT,
                        polynomial < POLYNOMIAL_SIZE_COUNT,
                        polynomial_size == pow2((8 + polynomial) as nat),
                        grouping <= g,
                        g == grouping_factors@.len(),
                        p == pairs@.len(),
                        points@.len() == search_index(
                            g as int,
                            p as int,
                            lwe as int,
                            glwe as int,
                            polynomial as int,
                            grouping as int,
                            0,
                            0,
                        ),
                        forall|index: int| 0 <= index < points@.len() ==> #[trigger] points@[index] == search_point(grouping_factors@, pairs@, index),
                    decreases g - grouping,
                {
                    let mut pbs: usize = 0;
                    while pbs < p
                        invariant
                            lwe < LWE_DIMENSION_COUNT,
                            glwe < GLWE_DIMENSION_COUNT,
                            polynomial < POLYNOMIAL_SIZE_COUNT,
                            polynomial_size == pow2((8 + polynomial) as nat),
                            grouping < g,
                            pbs <= p,
                            g == grouping_factors@.len(),
                            p == pairs@.len(),
                            points@.len() == search_index(
                                g as int,
                                p as int,
                                lwe as int,
                                glwe as int,
                                polynomial as int,
                                grouping as int,
                                pbs as int,
                                0,
                            ),
                            forall|index: int| 0 <= index < points@.len() ==> #[trigger] points@[index] == search_point(grouping_factors@, pairs@, index),
                        decreases p - pbs,
                    {
                        let mut ks: usize = 0;
                        while ks < p
                            invariant
                                lwe < LWE_DIMENSION_COUNT,
                                glwe < GLWE_DIMENSION_COUNT,
                                polynomial < POLYNOMIAL_SIZE_COUNT,
                                polynomial_size == pow2((8 + polynomial) as nat),
                                grouping < g,
                                pbs < p,
                                ks <= p,
                                g == grouping_factors@.len(),
                                p == pairs@.len(),
                                points@.len() == search_index(
                                    g as int,
                                    p as int,
                                    lwe as int,
                                    glwe as int,
                                    polynomial as int,
                                    grouping as int,
                                    pbs as int,
                                    ks as int,
                                ),
                                forall|index: int| 0 <= index < points@.len() ==> #[trigger] points@[index] == search_point(grouping_factors@, pairs@, index),
                            decreases p - ks,
                        {
                            proof {
                                lemma_search_index(
                                    grouping_factors@,
                                    pairs@,
                                    lwe as int,
                                    glwe as int,
                                    polynomial as int,
                                    grouping as int,
                                    pbs as int,
                                    ks as int,
                                );
                            }
                            points.push(
                                Params {
                                    lwe_dimension: 512 + 64 * lwe,
                                    glwe_dimension: 1 + glwe,
                                    polynomial_size,
                                    grouping_factor: grouping_factors[grouping],
                                    pbs_base_log: pairs[pbs].base,
                                    pbs_level: pairs[pbs].level,
                                    ks_base_log: pairs[ks].base,
                                    ks_level: pairs[ks].level,
                                },
                            );
                            ks += 1;
                        }
                        proof {
                            lemma_search_index_carries(
                                g as int,
                                p as int,
                                lwe as int,
                                glwe as int,
                                polynomial as int,
                                grouping as int,
                                pbs as int,
                            );
                        }
                        pbs += 1;
                    }
                    proof {
                        lemma_search_index_carries(
                            g as int,
                            p as int,
                            lwe as int,
                            glwe as int,
                            polynomial as int,
                            grouping as int,
                            0,
                        );
                    }
                    grouping += 1;
                }
                proof {
                    vstd::arithmetic::power2::lemma_pow2_unfold((8 + polynomial + 1) as nat);
                    vstd::arithmetic::power2::lemma_pow2_strictly_increases((8 + polynomial) as nat, 15);
                    vstd::arithmetic::power2::lemma2_to64();
                    lemma_search_index_carries(g as int, p as int, lwe as int, glwe as int, polynomial as int, 0, 0);
                }
                polynomial_size = polynomial_size * 2;
                polynomial += 1;
            }
            proof {
                lemma_search_index_carries(g as int, p as int, lwe as int, glwe as int, 0, 0, 0);
            }
            glwe += 1;
        }
        proof {
            lemma_search_index_carries(g as int, p as int, lwe as int, 0, 0, 0, 0);
        }
        lwe += 1;
    }
    proof {
        lemma_search_index_carries(g as int, p as int, 0, 0, 0, 0, 0);
    }
    points
}

/// Where a choice has run through all its values, the place is that of the
/// next value of the choice before it.
proof fn lemma_search_index_carries(g: int, p: int, lwe: int, glwe: int, polynomial: int, grouping: int, pbs: int)
    ensures
        search_index(g, p, lwe, glwe, polynomial, grouping, pbs, p) == search_index(g, p, lwe, glwe, polynomial, grouping, pbs + 1, 0),
        search_index(g, p, lwe, glwe, polynomial, grouping, p, 0) == search_index(g, p, lwe, glwe, polynomial, grouping + 1, 0, 0),
        search_index(g, p, lwe, glwe, polynomial, g, 0, 0) == search_index(g, p, lwe, glwe, polynomial + 1, 0, 0, 0),
        search_index(g, p, lwe, glwe, POLYNOMIAL_SIZE_COUNT as int, 0, 0, 0) == search_index(g, p, lwe, glwe + 1, 0, 0, 0, 0),
        search_index(g, p, lwe, GLWE_DIMENSION_COUNT as int, 0, 0, 0, 0) == search_index(g, p, lwe + 1, 0, 0, 0, 0, 0),
        search_index(g, p, LWE_DIMENSION_COUNT as int, 0, 0, 0, 0, 0) == LWE_DIMENSION_COUNT * GLWE_DIMENSION_COUNT * POLYNOMIAL_SIZE_COUNT * g * p * p,
        search_index(g, p, 0, 0, 0, 0, 0, 0) == 0,
{
    let n1 = lwe * GLWE_DIMENSION_COUNT + glwe;
    let n2 = n1 * POLYNOMIAL_SIZE_COUNT + polynomial;
    let n3 = n2 * g + grouping;
    let n4 = n3 * p + pbs;
    assert(n4 * p + p == (n4 + 1) * p + 0) by (nonlinear_arith);
    assert((n3 * p + p) * p == ((n3 + 1) * p + 0) * p) by (nonlinear_arith);
    assert(((n2 * g + g) * p + 0) * p + 0 == (((n2 + 1) * g + 0) * p + 0) * p + 0) by (nonlinear_arith);
    assert(n1 * 7 + 7 == (n1 + 1) * 7);
    assert(lwe * 5 + 5 == (lwe + 1) * 5);
    assert((((((9 * 5 + 0) * 7 + 0) * g + 0) * p + 0) * p + 0) == 9 * 5 * 7 * g * p * p) by (nonlinear_arith);
    assert((((((0 * 5 + 0) * 7 + 0) * g + 0) * p + 0) * p + 0) == 0) by (nonlinear_arith);
}

/// What tells two parameter sets apart, as plain values.
pub open spec fn hash_key(params: Params) -> (usize, usize, usize, usize, usize, bool) {
    (
        params.lwe_dimension,
        params.glwe_dimension,
        params.polynomial_size,
        params.pbs_level,
        params.ks_level,
        params.ks_base_log <= 5,
    )
}

/// The places below `count` whose key stands at no earlier place, in rising
/// order.
pub open spec fn first_occurrences(keys: Seq<(usize, usize, usize, usize, usize, bool)>, count: int) -> Seq<usize>
    decreases count,
{
    if count <= 0 {
        Seq::empty()
    } else {
        let before = first_occurrences(keys, count - 1);
        if forall|j: int| 0 <= j < count - 1 ==> #[trigger] keys[j] != keys[count - 1] {
            before.push((count - 1) as usize)
        } else {
            before
        }
    }
}

/// `Itertools::unique_by` over the places of `keys`, each place keyed by the
/// key that stands there: the places come out in their order, and of the
/// places with one key only the first.
#[verifier::external_body]
fn unique_places(keys: &Vec<(usize, usize, usize, usize, usize, bool)>) -> (places: Vec<usize>)
    ensures
        places@ == first_occurrences(keys@, keys@.len() as int),
{
    (0..keys.len()).unique_by(|place| keys[*place]).collect()
}

/// The places of the parameter sets that are measured: of those that agree
/// in what tells parameter sets apart, only the first.
pub fn unique_by_params_hash(candidates: &Vec<Params>) -> (places: Vec<usize>)
    ensures
        places@ == first_occurrences(candidates@.map_values(|params: Params| hash_key(params)), candidates@.len() as int),
{
    let mut keys: Vec<(usize, usize, usize, usize, usize, bool)> = Vec::new();
    let mut i: usize = 0;
    while i < candidates.len()
        invariant
            i <= candidates@.len(),
            keys@.len() == i,
            forall|j: int| 0 <= j < i ==> #[trigger] keys@[j] == hash_key(candidates@[j]),
        decreases candidates@.len() - i,
    {
        let hash = ParamsHash::from(candidates[i]);
        keys.push(
            (
                hash.lwe_dimension,
                hash.glwe_dimension,
                hash.polynomial_size,
                hash.pbs_level,
                hash.ks_level,
                hash.ks_base_log_smaller_than_5,
            ),
        );
        i += 1;
    }
    proof {
        assert(keys@ =~= candidates@.map_values(|params: Params| hash_key(params)));
    }
    unique_places(&keys)
}

/// Two parameter sets have one key exactly if they agree in what tells
/// parameter sets apart.
pub proof fn lemma_hash_key(first: Params, second: Params)
    ensures
        hash_key(first) == hash_key(second) <==> <ParamsHash as vstd::std_specs::convert::FromSpec<Params>>::from_spec(first)
            == <ParamsHash as vstd::std_specs::convert::FromSpec<Params>>::from_spec(second),
{
}

/// The order that shuffling with a ChaCha generator of this seed gives to
/// the items.
pub uninterp spec fn chacha_shuffled(seed: Seq<u8>, items: Seq<usize>) -> Seq<usize>;

/// `SliceRandom::shuffle` with the `ChaChaRng` that `SeedableRng::from_seed`
/// makes of `seed`: the items are reordered, in a way that the seed and the
/// items decide.  For more items than a `u32` counts the draws depend on the
/// width of `usize`, so such lists are left out.
#[verifier::external_body]
fn shuffle_with_seed(seed: [u8; 32], items: &mut Vec<usize>)
    requires
        old(items)@.len() <= u32::MAX,
    ensures
        final(items)@ == chacha_shuffled(seed@, old(items)@),
        final(items)@.to_multiset() == old(items)@.to_multiset(),
{
    let mut rng = rand_chacha::ChaChaRng::from_seed(seed);
    items.shuffle(&mut rng);
}

/// The places from zero up to `count`.
pub open spec fn places(count: nat) -> Seq<usize> {
    Seq::new(count, |i: int| i as usize)
}

/// The seed of the shuffle of a timing experiment: all zero.
pub open spec fn experiment_seed() -> Seq<u8> {
    Seq::new(32, |i: int| 0u8)
}

/// The order in which `count` parameter sets are measured: their places,
/// shuffled with a fixed seed, so that the order is the same in every
/// experiment.  `None` for more sets than a `u32` counts.
pub fn experiment_order(count: usize) -> (order: Option<Vec<usize>>)
    ensures
        order is Some <==> count <= u32::MAX,
        order matches Some(order) ==> {
            &&& order@ == chacha_shuffled(experiment_seed(), places(count as nat))
            &&& order@.to_multiset() == places(count as nat).to_multiset()
        },
{
    if count > u32::MAX as usize {
        return None;
    }
    let mut order: Vec<usize> = Vec::new();
    let mut i: usize = 0;
    while i < count
        invariant
            i <= count,
            order@.len() == i,
            forall|j: int| 0 <= j < i ==> #[trigger] order@[j] == j,
        decreases count - i,
    {
        order.push(i);
        i += 1;
    }
    let seed: [u8; 32] = [0u8; 32];
    proof {
        assert(order@ =~= places(count as nat));
        assert(seed@ =~= experiment_seed());
    }
    shuffle_with_seed(seed, &mut order);
    Some(order)
}

} // verus!
