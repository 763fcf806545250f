//! Products of polynomials modulo `X^N + 1`, with coefficients in `u128`.

use vstd::arithmetic::div_mod::{lemma_add_mod_noop, lemma_small_mod, lemma_sub_mod_noop};
use vstd::prelude::*;

verus! {

/// `2^128`, the number of values of a `u128`.
pub open spec fn two_to_128() -> int {
    0x1_0000_0000_0000_0000_0000_0000_0000_0000int
}

/// `2^64`, the number of values of a `u64`.
pub open spec fn two_to_64() -> int {
    0x1_0000_0000_0000_0000int
}

/// What coefficient `i` of `a` adds to coefficient `d` of the product of `a`
/// and `b` modulo `X^N + 1`: its product with the coefficient of `b` that
/// brings the degree to `d`, or, negated, to `d + N`.
pub open spec fn negacyclic_term(a: Seq<u64>, b: Seq<u64>, d: int, i: int) -> int {
    if i <= d {
        a[i] * b[d - i]
    } else {
        -(a[i] * b[d + a.len() - i])
    }
}

/// The sum of the terms of the first `n` coefficients of `a`.
pub open spec fn negacyclic_sum(a: Seq<u64>, b: Seq<u64>, d: int, n: int) -> int
    decreases n,
{
    if n <= 0 {
        0
    } else {
        negacyclic_sum(a, b, d, n - 1) + negacyclic_term(a, b, d, n - 1)
    }
}

/// Coefficient `d` of the product of `a` and `b` modulo `X^N + 1`, over the
/// integers.
pub open spec fn negacyclic_coefficient(a: Seq<u64>, b: Seq<u64>, d: int) -> int {
    negacyclic_sum(a, b, d, a.len() as int)
}

proof fn lemma_wrapping_add(x: u128, y: u128)
    ensures
        x.wrapping_add(y) as int == (x + y) % two_to_128(),
{
    if x + y >= two_to_128() {
        assert((x + y) % two_to_128() == x + y - two_to_128()) by {
            lemma_small_mod((x + y - two_to_128()) as nat, two_to_128() as nat);
            vstd::arithmetic::div_mod::lemma_mod_add_multiples_vanish(x + y - two_to_128(), two_to_128());
        }
    } else {
        lemma_small_mod((x + y) as nat, two_to_128() as nat);
    }
}

proof fn lemma_wrapping_sub(x: u128, y: u128)
    ensures
        x.wrapping_sub(y) as int == (x - y) % two_to_128(),
{
    if x - y < 0 {
        assert((x - y) % two_to_128() == x - y + two_to_128()) by {
            lemma_small_mod((x - y + two_to_128()) as nat, two_to_128() as nat);
            vstd::arithmetic::div_mod::lemma_mod_add_multiples_vanish(x - y, two_to_128());
        }
    } else {
        lemma_small_mod((x - y) as nat, two_to_128() as nat);
    }
}

/// The product of two 64-bit values is a 128-bit value.
proof fn lemma_product_fits(x: u64, y: u64)
    ensures
        0 <= x * y < two_to_128(),
{
    assert(0 <= x * y <= 0xffff_ffff_ffff_ffff * 0xffff_ffff_ffff_ffff) by (nonlinear_arith)
        requires
            0 <= x <= 0xffff_ffff_ffff_ffff,
            0 <= y <= 0xffff_ffff_ffff_ffff,
    ;
}

/// Coefficient `d` of the product modulo `X^N + 1` of the polynomial of `n`
/// coefficients that starts at `a_start` in `a` and the one that starts at
/// `b_start` in `b`, in wrapping `u128` arithmetic.
pub fn negacyclic_product_coefficient(
    a: &Vec<u64>,
    a_start: usize,
    b: &Vec<u64>,
    b_start: usize,
    n: usize,
    d: usize,
) -> (r: u128)
    requires
        a_start + n <= a@.len(),
        b_start + n <= b@.len(),
        d < n,
    ensures
        r as int == negacyclic_coefficient(
            a@.subrange(a_start as int, a_start + n),
            b@.subrange(b_start as int, b_start + n),
            d as int,
        ) % two_to_128(),
{
    let ghost pa = a@.subrange(a_start as int, a_start + n);
    let ghost pb = b@.subrange(b_start as int, b_start + n);
    let a_len = a.len();
    let b_len = b.len();
    let mut acc: u128 = 0;
    let mut i: usize = 0;
    proof {
        lemma_small_mod(0, two_to_128() as nat);
    }
    while i < n
        invariant
            i <= n,
            d < n,
            a_len == a@.len(),
            b_len == b@.len(),
            a_start + n <= a@.len(),
            b_start + n <= b@.len(),
            pa == a@.subrange(a_start as int, a_start + n),
            pb == b@.subrange(b_start as int, b_start + n),
            acc as int == negacyclic_sum(pa, pb, d as int, i as int) % two_to_128(),
        decreases n - i,
    {
        let x: u64 = a[a_start + i];
        let ghost before = negacyclic_sum(pa, pb, d as int, i as int);
        if i <= d {
            let y: u64 = b[b_start + (d - i)];
            proof {
                lemma_product_fits(x, y);
                assert(pa[i as int] == x && pb[d - i] == y);
            }
            let product: u128 = (x as u128) * (y as u128);
            proof {
                lemma_wrapping_add(acc, product);
                lemma_add_mod_noop(before, product as int, two_to_128());
                lemma_small_mod(product as nat, two_to_128() as nat);
            }
            acc = acc.wrapping_add(product);
        } else {
            let y: u64 = b[b_start + (d + (n - i))];
            proof {
                lemma_product_fits(x, y);
                assert(pa[i as int] == x && pb[d + n - i] == y);
            }
            let product: u128 = (x as u128) * (y as u128);
            proof {
                lemma_wrapping_sub(acc, product);
                lemma_sub_mod_noop(before, product as int, two_to_128());
                lemma_small_mod(product as nat, two_to_128() as nat);
            }
            acc = acc.wrapping_sub(product);
        }
        i += 1;
    }
    acc
}

/// The sum of two coefficients, each known modulo `2^128`, modulo `2^128`.
pub(crate) fn wrapping_sum(x: u128, y: u128, Ghost(a): Ghost<int>, Ghost(b): Ghost<int>) -> (r: u128)
    requires
        x as int == a % two_to_128(),
        y as int == b % two_to_128(),
    ensures
        r as int == (a + b) % two_to_128(),
{
    proof {
        lemma_wrapping_add(x, y);
        lemma_add_mod_noop(a, b, two_to_128());
    }
    x.wrapping_add(y)
}

} // verus!
