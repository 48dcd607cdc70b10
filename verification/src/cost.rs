//! Cost functions in exact arithmetic. A variance between two unigrams is a
//! sum of squared differences of probabilities; with the probabilities kept
//! as counts over totals it is a whole number over the common scale
//! `(total1 * total2)^2`, and this module computes that whole number.

use crate::freq::{lemma_count_le_sum, Unigram, MAX_TOTAL};
use crate::sorting::{lemma_sort_pairs, sort_pairs, sort_pairs_in_place};
use crate::perm::{is_bit_permutation, lemma_perm_of_is_permutation, perm_of};
use crate::table::{
    compute_hamming_weight, is_byte_map, lemma_mix_bits_keeps_weight, lvl2_table, lvl3_table,
    mix_bits, weight,
};
use vstd::prelude::*;

verus! {

/// The square of `d`.
pub open spec fn sq(d: int) -> int {
    d * d
}

/// The difference of two probabilities `c1 / n1 - c2 / n2`, times `n1 * n2`.
pub open spec fn gap(c1: int, n1: int, c2: int, n2: int) -> int {
    c1 * n2 - c2 * n1
}

/// The scale of every variance between `u1` and `u2`: the variance as a
/// real number is the whole-number cost divided by this.
pub open spec fn var_scale(u1: Unigram, u2: Unigram) -> int {
    sq(u1.total * u2.total)
}

/// The first `n` terms of the unigram variance.
pub open spec fn unigram_var_upto(u1: Unigram, u2: Unigram, s: Seq<usize>, n: int) -> int
    decreases n,
{
    if n <= 0 {
        0
    } else {
        unigram_var_upto(u1, u2, s, n - 1) + sq(
            gap(u1.counts@[n - 1] as int, u1.total as int, u2.counts@[s[n - 1] as int] as int, u2.total as int),
        )
    }
}

/// The unigram variance between `u1` and `u2` seen through the byte map
/// `s`, on the scale `var_scale(u1, u2)`: the sum over all bytes `i` of the
/// squared difference between the probability of `i` in `u1` and that of
/// `s[i]` in `u2`.
pub open spec fn unigram_var(u1: Unigram, u2: Unigram, s: Seq<usize>) -> int {
    unigram_var_upto(u1, u2, s, 256)
}

/// The largest value of one squared gap, 2^112.
pub open spec fn term_bound() -> int {
    0x1_0000_0000_0000_0000_0000_0000_0000
}

/// A squared gap of counts within the limit stays within 2^112.
pub proof fn lemma_gap_bound(c1: int, n1: int, c2: int, n2: int)
    requires
        0 <= c1 <= n1 <= MAX_TOTAL,
        0 <= c2 <= n2 <= MAX_TOTAL,
    ensures
        0 <= c1 * n2 <= 0x100_0000_0000_0000,
        0 <= c2 * n1 <= 0x100_0000_0000_0000,
        0 <= sq(gap(c1, n1, c2, n2)) <= term_bound(),
{
    assert(0 <= c1 * n2 <= 0x100_0000_0000_0000) by (nonlinear_arith)
        requires
            0 <= c1 <= 268_435_456,
            0 <= n2 <= 268_435_456,
    ;
    assert(0 <= c2 * n1 <= 0x100_0000_0000_0000) by (nonlinear_arith)
        requires
            0 <= c2 <= 268_435_456,
            0 <= n1 <= 268_435_456,
    ;
    let d = gap(c1, n1, c2, n2);
    assert(-0x100_0000_0000_0000 <= d <= 0x100_0000_0000_0000);
    assert(0 <= d * d <= 0x1_0000_0000_0000_0000_0000_0000_0000) by (nonlinear_arith)
        requires
            -0x100_0000_0000_0000 <= d <= 0x100_0000_0000_0000,
    ;
}

/// The squared gap between the probabilities `c1 / n1` and `c2 / n2`, on the
/// scale `(n1 * n2)^2`.
pub fn gap_squared(c1: u64, n1: u64, c2: u64, n2: u64) -> (r: u128)
    requires
        c1 <= n1 <= MAX_TOTAL,
        c2 <= n2 <= MAX_TOTAL,
    ensures
        r == sq(gap(c1 as int, n1 as int, c2 as int, n2 as int)),
        r <= term_bound(),
{
    proof {
        lemma_gap_bound(c1 as int, n1 as int, c2 as int, n2 as int);
    }
    let a: u128 = (c1 as u128) * (n2 as u128);
    let b: u128 = (c2 as u128) * (n1 as u128);
    let d: u128 = if a >= b {
        a - b
    } else {
        b - a
    };
    proof {
        let g = gap(c1 as int, n1 as int, c2 as int, n2 as int);
        assert(d == g || d == -g);
        assert(d * d == g * g) by (nonlinear_arith)
            requires
                d == g || d == -g,
        ;
    }
    d * d
}

/// The unigram variance between the sample unigram `u1` and the residue
/// unigram `u2` seen through `s`, as a whole number on the scale
/// `var_scale(u1, u2)`.
pub fn compute_unigram_var(u1: &Unigram, u2: &Unigram, s: &[usize; 256]) -> (cost: u128)
    requires
        u1.wf(),
        u2.wf(),
        is_byte_map(s@),
    ensures
        cost == unigram_var(*u1, *u2, s@),
        cost <= 256 * term_bound(),
{
    let mut cost: u128 = 0;
    let mut i: usize = 0;
    while i < 256
        invariant
            i <= 256,
            u1.wf(),
            u2.wf(),
            is_byte_map(s@),
            cost == unigram_var_upto(*u1, *u2, s@, i as int),
            cost <= i * term_bound(),
        decreases 256 - i,
    {
        let j = s[i];
        proof {
            lemma_count_le_sum(u1.counts@, i as int, 256);
            lemma_count_le_sum(u2.counts@, j as int, 256);
        }
        let t = gap_squared(u1.counts[i], u1.total, u2.counts[j], u2.total);
        cost = cost + t;
        i += 1;
    }
    cost
}

/// The scale of two unigrams within the limit stays within 2^112.
pub proof fn lemma_var_scale_bound(u1: Unigram, u2: Unigram)
    requires
        u1.wf(),
        u2.wf(),
    ensures
        0 <= var_scale(u1, u2) <= term_bound(),
{
    lemma_gap_bound(u1.total as int, u1.total as int, 0, u2.total as int);
    let n = u1.total as int * u2.total as int;
    assert(0 <= n * n <= 0x1_0000_0000_0000_0000_0000_0000_0000) by (nonlinear_arith)
        requires
            0 <= n <= 0x100_0000_0000_0000,
    ;
}

/// The scale of the variances between `u1` and `u2`.
pub fn compute_var_scale(u1: &Unigram, u2: &Unigram) -> (scale: u128)
    requires
        u1.wf(),
        u2.wf(),
    ensures
        scale == var_scale(*u1, *u2),
        scale <= term_bound(),
{
    proof {
        lemma_gap_bound(u1.total as int, u1.total as int, 0, u2.total as int);
        lemma_var_scale_bound(*u1, *u2);
    }
    let n: u128 = (u1.total as u128) * (u2.total as u128);
    n * n
}

/// A variance is never negative.
pub proof fn lemma_unigram_var_nonneg(u1: Unigram, u2: Unigram, s: Seq<usize>, n: int)
    ensures
        unigram_var_upto(u1, u2, s, n) >= 0,
    decreases n,
{
    if n > 0 {
        lemma_unigram_var_nonneg(u1, u2, s, n - 1);
        let d = gap(u1.counts@[n - 1] as int, u1.total as int, u2.counts@[s[n - 1] as int] as int, u2.total as int);
        assert(d * d >= 0) by (nonlinear_arith);
    }
}

/// The first `n` terms add up to zero exactly when each of them is zero.
pub proof fn lemma_unigram_var_zero_upto(u1: Unigram, u2: Unigram, s: Seq<usize>, n: int)
    ensures
        unigram_var_upto(u1, u2, s, n) == 0 <==> (forall|i: int|
            0 <= i < n ==> #[trigger] u1.counts@[i] * u2.total == u2.counts@[s[i] as int]
                * u1.total),
    decreases n,
{
    if n > 0 {
        lemma_unigram_var_zero_upto(u1, u2, s, n - 1);
        lemma_unigram_var_nonneg(u1, u2, s, n - 1);
        let d = gap(u1.counts@[n - 1] as int, u1.total as int, u2.counts@[s[n - 1] as int] as int, u2.total as int);
        assert(d * d >= 0 && (d * d == 0 <==> d == 0)) by (nonlinear_arith);
        if unigram_var_upto(u1, u2, s, n) == 0 {
            assert forall|i: int| 0 <= i < n implies #[trigger] u1.counts@[i] * u2.total
                == u2.counts@[s[i] as int] * u1.total by {
                if i < n - 1 {
                } else {
                    assert(d == 0);
                }
            }
        } else {
            if unigram_var_upto(u1, u2, s, n - 1) == 0 {
                assert(d != 0);
                assert(u1.counts@[n - 1] * u2.total != u2.counts@[s[n - 1] as int] * u1.total);
            }
        }
    }
}

/// The unigram variance is never negative, and it is zero exactly when the
/// two distributions coincide at every byte: the probability of `i` in `u1`
/// is that of `s[i]` in `u2`, which with the probabilities cross-multiplied
/// reads `counts1[i] * total2 == counts2[s[i]] * total1`.
pub proof fn lemma_unigram_var_zero_iff_equal(u1: Unigram, u2: Unigram, s: Seq<usize>)
    ensures
        unigram_var(u1, u2, s) >= 0,
        unigram_var(u1, u2, s) == 0 <==> (forall|i: int|
            0 <= i < 256 ==> #[trigger] u1.counts@[i] * u2.total == u2.counts@[s[i] as int]
                * u1.total),
{
    lemma_unigram_var_nonneg(u1, u2, s, 256);
    lemma_unigram_var_zero_upto(u1, u2, s, 256);
}

/// For each byte `i` the Hamming weight of its image `s[i]` with the count of `i` in `u1`.
pub open spec fn image_weight_pairs(u1: Unigram, s: Seq<usize>) -> Seq<(u8, u64)> {
    Seq::new(256, |i: int| (weight(s[i] as u8), u1.counts@[i]))
}

/// For each byte `i` its own Hamming weight with its count in `u2`.
pub open spec fn own_weight_pairs(u2: Unigram) -> Seq<(u8, u64)> {
    Seq::new(256, |i: int| (weight(i as u8), u2.counts@[i]))
}

/// The first `n` terms of the variance between two sequences of counts
/// taken pair by pair.
pub open spec fn paired_var_upto(
    a: Seq<(u8, u64)>,
    n1: int,
    b: Seq<(u8, u64)>,
    n2: int,
    n: int,
) -> int
    decreases n,
{
    if n <= 0 {
        0
    } else {
        paired_var_upto(a, n1, b, n2, n - 1) + sq(gap(a[n - 1].1 as int, n1, b[n - 1].1 as int, n2))
    }
}

/// The Hamming-weight variance between `u1` and `u2` through the byte map
/// `s`, on the scale `var_scale(u1, u2)`: both distributions are put in
/// order of weight and then of probability, the first with the weights of
/// the images under `s`, and the squared differences of the probabilities
/// that then stand at the same place are added up.
pub open spec fn hamming_var(u1: Unigram, u2: Unigram, s: Seq<usize>) -> int {
    paired_var_upto(
        sort_pairs(image_weight_pairs(u1, s)),
        u1.total as int,
        sort_pairs(own_weight_pairs(u2)),
        u2.total as int,
        256,
    )
}

/// A count that occurs in a sequence of pairs made from a unigram is one of its counts.
proof fn lemma_sorted_counts_bounded(pairs: Seq<(u8, u64)>, sorted: Seq<(u8, u64)>, total: u64)
    requires
        sorted.to_multiset() == pairs.to_multiset(),
        forall|i: int| 0 <= i < pairs.len() ==> (#[trigger] pairs[i]).1 <= total,
    ensures
        forall|i: int| 0 <= i < sorted.len() ==> (#[trigger] sorted[i]).1 <= total,
{
    broadcast use vstd::seq_lib::group_to_multiset_ensures;

    assert forall|i: int| 0 <= i < sorted.len() implies (#[trigger] sorted[i]).1 <= total by {
        assert(sorted.to_multiset().count(sorted[i]) > 0);
        assert(pairs.contains(sorted[i]));
        let k = choose|k: int| 0 <= k < pairs.len() && pairs[k] == sorted[i];
        assert(pairs[k].1 <= total);
    }
}

/// The bytes' own weights with their counts in `u2`, in ascending order:
/// the side of the Hamming-weight variance that no byte map changes.
pub fn sorted_own_pairs(u2: &Unigram) -> (own: Vec<(u8, u64)>)
    ensures
        own@ == sort_pairs(own_weight_pairs(*u2)),
{
    let mut own: Vec<(u8, u64)> = Vec::new();
    let mut i: usize = 0;
    while i < 256
        invariant
            i <= 256,
            own@.len() == i,
            forall|k: int| 0 <= k < i ==> #[trigger] own@[k] == own_weight_pairs(*u2)[k],
        decreases 256 - i,
    {
        own.push((compute_hamming_weight(i as u8), u2.counts[i]));
        i += 1;
    }
    assert(own@ =~= own_weight_pairs(*u2));
    sort_pairs_in_place(&mut own);
    own
}

/// The Hamming-weight variance between `u1` and `u2` through `s`, given
/// the sorted side of `u2`.
pub fn hamming_var_against(u1: &Unigram, u2: &Unigram, s: &[usize; 256], own: &Vec<(u8, u64)>) -> (cost: u128)
    requires
        u1.wf(),
        u2.wf(),
        is_byte_map(s@),
        own@ == sort_pairs(own_weight_pairs(*u2)),
    ensures
        cost == hamming_var(*u1, *u2, s@),
        cost <= 256 * term_bound(),
{
    let mut images: Vec<(u8, u64)> = Vec::new();
    let mut i: usize = 0;
    while i < 256
        invariant
            i <= 256,
            is_byte_map(s@),
            images@.len() == i,
            forall|k: int| 0 <= k < i ==> #[trigger] images@[k] == image_weight_pairs(*u1, s@)[k],
        decreases 256 - i,
    {
        images.push((compute_hamming_weight(s[i] as u8), u1.counts[i]));
        i += 1;
    }
    proof {
        assert(images@ =~= image_weight_pairs(*u1, s@));
        assert forall|k: int| 0 <= k < 256 implies (#[trigger] images@[k]).1 <= u1.total by {
            lemma_count_le_sum(u1.counts@, k, 256);
        }
        let pairs = own_weight_pairs(*u2);
        assert forall|k: int| 0 <= k < 256 implies (#[trigger] pairs[k]).1 <= u2.total by {
            lemma_count_le_sum(u2.counts@, k, 256);
        }
        lemma_sort_pairs(pairs);
        lemma_sorted_counts_bounded(pairs, own@, u2.total);
    }
    let ghost unsorted_images = images@;
    sort_pairs_in_place(&mut images);
    proof {
        lemma_sorted_counts_bounded(unsorted_images, images@, u1.total);
    }
    let mut cost: u128 = 0;
    i = 0;
    while i < 256
        invariant
            i <= 256,
            u1.wf(),
            u2.wf(),
            images@.len() == 256,
            own@.len() == 256,
            forall|k: int| 0 <= k < 256 ==> (#[trigger] images@[k]).1 <= u1.total,
            forall|k: int| 0 <= k < 256 ==> (#[trigger] own@[k]).1 <= u2.total,
            cost == paired_var_upto(images@, u1.total as int, own@, u2.total as int, i as int),
            cost <= i * term_bound(),
        decreases 256 - i,
    {
        let t = gap_squared(images[i].1, u1.total, own[i].1, u2.total);
        cost = cost + t;
        i += 1;
    }
    cost
}

/// The Hamming-weight variance between the sample unigram `u1` and the
/// residue unigram `u2` through `s`, as a whole number on the scale
/// `var_scale(u1, u2)`.
pub fn compute_hamming_var(u1: &Unigram, u2: &Unigram, s: &[usize; 256]) -> (cost: u128)
    requires
        u1.wf(),
        u2.wf(),
        is_byte_map(s@),
    ensures
        cost == hamming_var(*u1, *u2, s@),
        cost <= 256 * term_bound(),
{
    let own = sorted_own_pairs(u2);
    hamming_var_against(u1, u2, s, &own)
}

/// The Hamming-weight variance sees a byte map only through the weights of its images.
pub proof fn lemma_hamming_var_by_weights(u1: Unigram, u2: Unigram, s: Seq<usize>, t: Seq<usize>)
    requires
        forall|i: int| 0 <= i < 256 ==> weight(#[trigger] s[i] as u8) == weight(t[i] as u8),
    ensures
        hamming_var(u1, u2, s) == hamming_var(u1, u2, t),
{
    assert(image_weight_pairs(u1, s) =~= image_weight_pairs(u1, t));
}

/// Moving the bits of every image by one bit permutation `pi` leaves the
/// Hamming-weight variance as it was.
pub proof fn lemma_hamming_var_invariant(
    u1: Unigram,
    u2: Unigram,
    s: Seq<usize>,
    t: Seq<usize>,
    pi: Seq<int>,
)
    requires
        is_bit_permutation(pi),
        is_byte_map(s),
        t.len() == 256,
        forall|i: int| 0 <= i < 256 ==> #[trigger] t[i] == mix_bits(s[i] as u8, pi) as usize,
    ensures
        hamming_var(u1, u2, t) == hamming_var(u1, u2, s),
{
    assert forall|i: int| 0 <= i < 256 implies weight(#[trigger] s[i] as u8) == weight(
        t[i] as u8,
    ) by {
        lemma_mix_bits_keeps_weight(s[i] as u8, pi);
    }
    lemma_hamming_var_by_weights(u1, u2, s, t);
}

/// The Hamming-weight variance of a level-3 key does not depend on its mix
/// index: it is that of the level-2 key with the same `x` and `a`. So the
/// level-2 keys can be ranked before any mix index is tried.
pub proof fn lemma_hamming_var_ignores_mix(u1: Unigram, u2: Unigram, x: u8, a: u8, m: u16)
    ensures
        hamming_var(u1, u2, lvl3_table(x, a, m)) == hamming_var(u1, u2, lvl2_table(x, a)),
{
    lemma_perm_of_is_permutation(m as int);
    lemma_hamming_var_invariant(u1, u2, lvl2_table(x, a), lvl3_table(x, a, m), perm_of(m as int));
}

} // verus!
