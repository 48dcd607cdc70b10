//! Evidence for the key length: how far the unigram of each residue class
//! is from the uniform distribution, for each candidate length. Under the
//! true length every residue is one substitution of the plaintext, and its
//! unigram is as uneven as the plaintext's.

use crate::breaker::Variance;
use crate::cost::sq;
use crate::freq::{lemma_count_le_sum, residue_unigram, unigram_of, Unigram, MAX_TOTAL};
use vstd::prelude::*;

verus! {

/// The first `n` terms of the distance from uniform.
pub open spec fn uniform_var_upto(u: Unigram, n: int) -> int
    decreases n,
{
    if n <= 0 {
        0
    } else {
        uniform_var_upto(u, n - 1) + sq(256 * u.counts@[n - 1] - u.total)
    }
}

/// The squared distance of `u` from the uniform distribution, on the scale
/// `uniform_scale(u)`: the sum over all bytes of the squared difference
/// between the probability of the byte and 1/256.
pub open spec fn uniform_var(u: Unigram) -> int {
    uniform_var_upto(u, 256)
}

/// The scale of `uniform_var`: `(256 * total)^2`.
pub open spec fn uniform_scale(u: Unigram) -> int {
    sq(256 * u.total)
}

/// The squared distance of `u` from the uniform distribution, as a fraction.
pub fn distance_from_uniform(u: &Unigram) -> (v: Variance)
    requires
        u.wf(),
    ensures
        v.num == uniform_var(*u),
        v.scale == uniform_scale(*u),
{
    let n: u128 = 256 * (u.total as u128);
    let mut num: u128 = 0;
    let mut i: usize = 0;
    while i < 256
        invariant
            i <= 256,
            u.wf(),
            n == 256 * u.total,
            num == uniform_var_upto(*u, i as int),
            num <= i * 0x1_0000_0000_0000_0000_0000,
        decreases 256 - i,
    {
        proof {
            lemma_count_le_sum(u.counts@, i as int, 256);
        }
        let c: u128 = 256 * (u.counts[i] as u128);
        let t: u128 = u.total as u128;
        let d: u128 = if c >= t {
            c - t
        } else {
            t - c
        };
        proof {
            let g = 256 * u.counts@[i as int] - u.total;
            assert(d == g || d == -g);
            assert(d * d == g * g && d * d <= 0x1_0000_0000_0000_0000_0000) by (nonlinear_arith)
                requires
                    d == g || d == -g,
                    0 <= d <= 0x100_0000_0000,
            ;
        }
        num = num + d * d;
        i += 1;
    }
    proof {
        assert(n * n <= 0x1_0000_0000_0000_0000_0000) by (nonlinear_arith)
            requires
                0 <= n <= 0x100_0000_0000,
        ;
    }
    Variance { num, scale: n * n }
}

/// `ev` is the evidence on the key lengths `1..=max_l` for `data`: entry
/// `l - 1` holds, for each residue class modulo `l`, the squared distance
/// of the residue's unigram from uniform.
pub open spec fn is_length_evidence(ev: Seq<Vec<Variance>>, data: Seq<u8>, max_l: int) -> bool {
    &&& ev.len() == max_l
    &&& forall|k: int| 0 <= k < max_l ==> (#[trigger] ev[k])@.len() == k + 1
    &&& forall|k: int, p: int|
        0 <= p <= k < max_l ==> is_distance_of(ev[k]@[p], #[trigger] unigram_of(data, p, k + 1))
}

/// `v` is the squared distance of `u` from uniform.
pub open spec fn is_distance_of(v: Variance, u: Unigram) -> bool {
    v.num == uniform_var(u) && v.scale == uniform_scale(u)
}

/// For each key length `1..=max_l`, and each residue class modulo that
/// length, the squared distance of the residue's unigram from uniform.
pub fn length_evidence(data: &[u8], max_l: usize) -> (ev: Vec<Vec<Variance>>)
    requires
        data@.len() <= MAX_TOTAL,
    ensures
        is_length_evidence(ev@, data@, max_l as int),
{
    let mut ev: Vec<Vec<Variance>> = Vec::new();
    let mut k: usize = 0;
    while k < max_l
        invariant
            k <= max_l,
            data@.len() <= MAX_TOTAL,
            is_length_evidence(ev@, data@, k as int),
        decreases max_l - k,
    {
        let l = k + 1;
        let mut row: Vec<Variance> = Vec::new();
        let mut p: usize = 0;
        while p < l
            invariant
                p <= l,
                l == k + 1,
                data@.len() <= MAX_TOTAL,
                row@.len() == p,
                forall|q: int|
                    0 <= q < p ==> is_distance_of(row@[q], #[trigger] unigram_of(data@, q, l as int)),
            decreases l - p,
        {
            let u = residue_unigram(data, p, l);
            let v = distance_from_uniform(&u);
            row.push(v);
            p += 1;
        }
        let ghost before = ev@;
        ev.push(row);
        proof {
            assert forall|j: int| 0 <= j < k + 1 implies (#[trigger] ev@[j])@.len() == j + 1 by {
                if j < k {
                    assert(ev@[j] == before[j]);
                }
            }
            assert forall|j: int, q: int| 0 <= q <= j < k + 1 implies is_distance_of(
                ev@[j]@[q],
                #[trigger] unigram_of(data@, q, j + 1),
            ) by {
                if j < k {
                    assert(ev@[j] == before[j]);
                }
            }
        }
        k += 1;
    }
    ev
}

} // verus!
