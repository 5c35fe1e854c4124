//! One `u128` of sites: the heat-bath rule as word-wide boolean algebra.

use vstd::arithmetic::power2::{lemma2_to64, lemma_pow2_adds, lemma_pow2_unfold, pow2};
use vstd::prelude::*;

verus! {

/// Number of sites that one word holds.
pub const WORD_BITS: usize = 128;

/// A word with every site up.
pub const ALL_UP: u128 = 0xffff_ffff_ffff_ffff_ffff_ffff_ffff_ffff;

/// Whether the site at bit `k` of `w` is up (equivalently, whether bit `k`
/// of a mask is set).
pub open spec fn up(w: u128, k: u128) -> bool {
    (w >> k) & 1 == 1
}

/// One if `b` holds, else zero.
pub open spec fn tally(b: bool) -> int {
    if b {
        1
    } else {
        0
    }
}

/// The heat-bath rule for a single site. `d0..d3` say which of the four
/// neighbours are antiparallel to the site. A site aligned with all four
/// flips only where `both` is set, a site with exactly one antiparallel
/// neighbour flips only where `once` is set, and any other site flips.
pub open spec fn site_flips(d0: bool, d1: bool, d2: bool, d3: bool, both: bool, once: bool) -> bool {
    let differing = tally(d0) + tally(d1) + tally(d2) + tally(d3);
    if differing == 0 {
        both
    } else if differing == 1 {
        once
    } else {
        true
    }
}

/// Sites with no antiparallel neighbour, given the four disagreement words.
pub open spec fn none_differ(d0: u128, d1: u128, d2: u128, d3: u128) -> u128 {
    !(d0 | d1 | d2 | d3)
}

/// Sites with exactly one antiparallel neighbour.
pub open spec fn one_differs(d0: u128, d1: u128, d2: u128, d3: u128) -> u128 {
    (d0 & !d1 & !d2 & !d3) | (!d0 & d1 & !d2 & !d3) | (!d0 & !d1 & d2 & !d3) | (!d0 & !d1 & !d2
        & d3)
}

/// Sites with two or more antiparallel neighbours.
pub open spec fn several_differ(d0: u128, d1: u128, d2: u128, d3: u128) -> u128 {
    !none_differ(d0, d1, d2, d3) & !one_differs(d0, d1, d2, d3)
}

/// The sites of a word that flip, given its four disagreement words and the
/// two acceptance masks.
pub open spec fn flip_mask(d0: u128, d1: u128, d2: u128, d3: u128, both: u128, once: u128) -> u128 {
    (none_differ(d0, d1, d2, d3) & both) | (one_differs(d0, d1, d2, d3) & once) | several_differ(
        d0,
        d1,
        d2,
        d3,
    )
}

/// The word `w` after one heat-bath update against the neighbour words
/// `n0..n3`. `first` and `second` are two independent probability masks,
/// both of which must be set for a fully aligned site to flip; `third`
/// decides the sites with one antiparallel neighbour.
pub open spec fn heat_bath_spec(
    w: u128,
    n0: u128,
    n1: u128,
    n2: u128,
    n3: u128,
    first: u128,
    second: u128,
    third: u128,
) -> u128 {
    w ^ flip_mask(w ^ n0, w ^ n1, w ^ n2, w ^ n3, first & second, third)
}

/// Site by site, a heat-bath update toggles exactly the sites that the rule
/// selects: the site at bit `k` changes if and only if `site_flips` holds of
/// its disagreements with the four neighbours and of the masks at bit `k`.
pub proof fn lemma_heat_bath_sites(
    w: u128,
    n0: u128,
    n1: u128,
    n2: u128,
    n3: u128,
    first: u128,
    second: u128,
    third: u128,
    k: u128,
)
    by (bit_vector)
    requires
        k < 128,
    ensures
        (up(heat_bath_spec(w, n0, n1, n2, n3, first, second, third), k) != up(w, k)) == site_flips(
            up(w, k) != up(n0, k),
            up(w, k) != up(n1, k),
            up(w, k) != up(n2, k),
            up(w, k) != up(n3, k),
            up(first, k) && up(second, k),
            up(third, k),
        ),
{
}

/// With all three masks empty, an update flips the sites with two or more
/// antiparallel neighbours and no others.
pub proof fn lemma_heat_bath_never(w: u128, n0: u128, n1: u128, n2: u128, n3: u128)
    by (bit_vector)
    ensures
        heat_bath_spec(w, n0, n1, n2, n3, 0, 0, 0) == w ^ several_differ(
            w ^ n0,
            w ^ n1,
            w ^ n2,
            w ^ n3,
        ),
{
}

/// With all three masks full, an update flips every site of the word, so in
/// particular every site that has an antiparallel neighbour.
pub proof fn lemma_heat_bath_certain(w: u128, n0: u128, n1: u128, n2: u128, n3: u128)
    by (bit_vector)
    ensures
        heat_bath_spec(w, n0, n1, n2, n3, ALL_UP, ALL_UP, ALL_UP) == !w,
{
}

/// One heat-bath update of the word `w` against its four neighbour words,
/// with the probability masks `first` and `second` (combined, for aligned
/// sites) and `third` (for sites with one antiparallel neighbour). Each of
/// the 128 sites changes exactly when the heat-bath rule says so of its
/// own four neighbours and mask bits.
pub fn heat_bath(
    w: u128,
    n0: u128,
    n1: u128,
    n2: u128,
    n3: u128,
    first: u128,
    second: u128,
    third: u128,
) -> (r: u128)
    ensures
        r == heat_bath_spec(w, n0, n1, n2, n3, first, second, third),
        forall|k: u128|
            k < 128 ==> (#[trigger] up(r, k) != up(w, k)) == site_flips(
                up(w, k) != up(n0, k),
                up(w, k) != up(n1, k),
                up(w, k) != up(n2, k),
                up(w, k) != up(n3, k),
                up(first, k) && up(second, k),
                up(third, k),
            ),
{
    proof {
        assert forall|k: u128| k < 128 implies (#[trigger] up(
            heat_bath_spec(w, n0, n1, n2, n3, first, second, third),
            k,
        ) != up(w, k)) == site_flips(
            up(w, k) != up(n0, k),
            up(w, k) != up(n1, k),
            up(w, k) != up(n2, k),
            up(w, k) != up(n3, k),
            up(first, k) && up(second, k),
            up(third, k),
        ) by {
            lemma_heat_bath_sites(w, n0, n1, n2, n3, first, second, third, k);
        }
    }
    let d0: u128 = w ^ n0;
    let d1: u128 = w ^ n1;
    let d2: u128 = w ^ n2;
    let d3: u128 = w ^ n3;
    let mut c0: u128 = !(d0 | d1 | d2 | d3);
    let mut c1: u128 = (d0 & !d1 & !d2 & !d3) | (!d0 & d1 & !d2 & !d3) | (!d0 & !d1 & d2 & !d3) | (
    !d0 & !d1 & !d2 & d3);
    let c234: u128 = !c0 & !c1;
    c0 = c0 & (first & second);
    c1 = c1 & third;
    w ^ (c0 | c1 | c234)
}

/// Number of set bits in the binary representation of `n`.
pub open spec fn ones(n: nat) -> nat
    decreases n,
{
    if n == 0 {
        0
    } else {
        (n % 2) + ones(n / 2)
    }
}

/// A number below `2^k` has at most `k` set bits.
pub proof fn lemma_ones_at_most(n: nat, k: nat)
    requires
        n < pow2(k),
    ensures
        ones(n) <= k,
    decreases k,
{
    if n != 0 {
        if k == 0 {
            lemma2_to64();
        } else {
            lemma_pow2_unfold(k);
            lemma_ones_at_most(n / 2, (k - 1) as nat);
        }
    }
}

/// The number `2^k - 1` has exactly `k` set bits.
pub proof fn lemma_ones_of_full(k: nat)
    ensures
        ones((pow2(k) - 1) as nat) == k,
    decreases k,
{
    if k == 0 {
        lemma2_to64();
    } else {
        lemma_pow2_unfold(k);
        vstd::arithmetic::power2::lemma_pow2_pos((k - 1) as nat);
        lemma_ones_of_full((k - 1) as nat);
        let m = pow2((k - 1) as nat);
        assert((2 * m - 1) / 2 == m - 1);
        assert((2 * m - 1) % 2 == 1);
    }
}

/// `2^128` is one more than the largest word.
pub proof fn lemma_word_range()
    ensures
        pow2(128) == ALL_UP + 1,
{
    lemma2_to64();
    lemma_pow2_adds(64, 64);
}

/// A word has at most 128 sites up; the full word has exactly 128, the empty
/// word none.
pub proof fn lemma_ones_of_word(w: u128)
    ensures
        ones(w as nat) <= 128,
        ones(ALL_UP as nat) == 128,
        ones(0) == 0,
{
    lemma_word_range();
    lemma_ones_at_most(w as nat, 128);
    lemma_ones_of_full(128);
}

/// Number of sites among the lowest `k` of `w` that are up.
pub open spec fn sites_up(w: u128, k: nat) -> nat
    decreases k,
{
    if k == 0 {
        0
    } else {
        (sites_up(w, (k - 1) as nat) + tally(up(w, (k - 1) as u128))) as nat
    }
}

proof fn lemma_halved_site(w: u128, j: u128)
    by (bit_vector)
    requires
        j < 127,
    ensures
        up(w / 2, j) == up(w, (j + 1) as u128),
        up(w, 0) == (w % 2 == 1),
{
}

proof fn lemma_sites_up_halved(w: u128, k: nat)
    requires
        k < 128,
    ensures
        sites_up(w, k + 1) == sites_up(w / 2, k) + tally(up(w, 0)),
    decreases k,
{
    if k > 0 {
        lemma_sites_up_halved(w, (k - 1) as nat);
        lemma_halved_site(w, (k - 1) as u128);
    }
    assert(sites_up(w, 1) == sites_up(w, 0) + tally(up(w, 0)));
}

proof fn lemma_ones_below(w: u128, k: nat)
    requires
        k <= 128,
        w < pow2(k),
    ensures
        ones(w as nat) == sites_up(w, k),
    decreases k,
{
    if k == 0 {
        lemma2_to64();
    } else {
        lemma_pow2_unfold(k);
        lemma_ones_below(w / 2, (k - 1) as nat);
        lemma_sites_up_halved(w, (k - 1) as nat);
        lemma_halved_site(w, 0);
    }
}

/// The set bits of a word are its sites that are up: the count of the one
/// is the count of the other.
pub proof fn lemma_ones_are_sites_up(w: u128)
    ensures
        ones(w as nat) == sites_up(w, 128),
{
    lemma_word_range();
    lemma_ones_below(w, 128);
}

/// `u128::count_ones`: the number of ones in the binary representation of
/// `w`, as the standard library documents it.
#[verifier::external_body]
pub(crate) fn count_ones(w: u128) -> (r: u32)
    ensures
        r == ones(w as nat),
{
    w.count_ones()
}

/// Number of sites of `w` that are up.
pub fn count_up(w: u128) -> (r: u32)
    ensures
        r == ones(w as nat),
        r == sites_up(w, 128),
        r <= 128,
{
    proof {
        lemma_ones_of_word(w);
        lemma_ones_are_sites_up(w);
    }
    count_ones(w)
}

} // verus!
