//! Why the analysis works: under a key of length `l`, each residue class
//! modulo `l` goes through one substitution, so the unigram of the
//! enciphered residue is the unigram of the plain residue with its bytes
//! renamed, and the true key position brings the variance to zero.

use crate::cipher::{encrypted, lemma_apply_injective, Key};
use crate::breaker::{lvl1_cost, lvl2_cost};
use crate::cost::{lemma_unigram_var_nonneg, lemma_unigram_var_zero_upto, unigram_var, var_scale};
use crate::search::is_first_min;
use crate::freq::{stride_count, stride_len, Unigram};
use crate::table::{lvl1_table, lvl2_table, lvl3_table, substitute};
use vstd::prelude::*;

verus! {

/// Two streams of one length have strides of one length.
pub proof fn lemma_stride_len_same(d: Seq<u8>, c: Seq<u8>, i: int, l: int)
    requires
        d.len() == c.len(),
    ensures
        stride_len(d, i, l) == stride_len(c, i, l),
    decreases (if i < d.len() { d.len() - i } else { 0 }),
{
    if !(i < 0 || l <= 0 || i >= d.len()) {
        lemma_stride_len_same(d, c, i + l, l);
    }
}

/// Along the stride of residue `p` modulo `l`, from offset `i` on, the
/// enciphered stream holds the image of `b` as often as the plain stream
/// holds `b`.
pub proof fn lemma_stride_count_enciphered(d: Seq<u8>, key: Key, p: int, i: int, b: u8)
    requires
        key.spec_len() > 0,
        0 <= p < key.spec_len(),
        0 <= i,
        i % (key.spec_len() as int) == p,
    ensures
        stride_count(encrypted(d, key), i, key.spec_len() as int, key.apply(p, b)) == stride_count(
            d,
            i,
            key.spec_len() as int,
            b,
        ),
    decreases (if i < d.len() { d.len() - i } else { 0 }),
{
    let l = key.spec_len() as int;
    let c = encrypted(d, key);
    if i < d.len() {
        assert((i + l) % l == i % l) by (nonlinear_arith)
            requires
                l > 0,
                i >= 0,
        ;
        lemma_stride_count_enciphered(d, key, p, i + l, b);
        assert(c[i] == key.apply(p, d[i]));
        if key.apply(p, d[i]) == key.apply(p, b) {
            lemma_apply_injective(key, p, d[i], b);
        }
    }
}

/// The unigram of an enciphered residue is the unigram of the plain
/// residue with every byte renamed by the substitution of the residue's
/// key position.
pub proof fn lemma_residue_unigram_renamed(d: Seq<u8>, key: Key, p: int, plain: Unigram, cipher: Unigram, b: u8)
    requires
        key.spec_len() > 0,
        0 <= p < key.spec_len(),
        plain.describes(d, p, key.spec_len() as int),
        cipher.describes(encrypted(d, key), p, key.spec_len() as int),
    ensures
        cipher.total == plain.total,
        cipher.counts@[key.apply(p, b) as int] == plain.counts@[b as int],
{
    let l = key.spec_len() as int;
    lemma_stride_len_same(d, encrypted(d, key), p, l);
    assert(p % l == p) by (nonlinear_arith)
        requires
            0 <= p < l,
    ;
    lemma_stride_count_enciphered(d, key, p, p, b);
    assert(cipher.counts@[key.apply(p, b) as int] == stride_count(
        encrypted(d, key),
        p,
        l,
        key.apply(p, b),
    ));
    assert(plain.counts@[b as int] == stride_count(d, p, l, b));
}

/// Against the unigram of the plain residue, the enciphered residue seen
/// through the substitution of its true key position has variance zero.
pub proof fn lemma_true_key_has_zero_variance(d: Seq<u8>, key: Key, p: int, plain: Unigram, cipher: Unigram)
    requires
        key.spec_len() > 0,
        0 <= p < key.spec_len(),
        plain.describes(d, p, key.spec_len() as int),
        cipher.describes(encrypted(d, key), p, key.spec_len() as int),
    ensures
        unigram_var(plain, cipher, lvl3_table(key.x@[p], key.a@[p], key.mix_at(p))) == 0,
{
    let t = lvl3_table(key.x@[p], key.a@[p], key.mix_at(p));
    lemma_unigram_var_zero_upto(plain, cipher, t, 256);
    assert forall|i: int| 0 <= i < 256 implies #[trigger] plain.counts@[i] * cipher.total
        == cipher.counts@[t[i] as int] * plain.total by {
        let b = i as u8;
        lemma_residue_unigram_renamed(d, key, p, plain, cipher, b);
        assert(t[i] == substitute(b, key.x@[p], key.a@[p], key.mix_at(p)) as usize);
        assert(key.apply(p, b) == substitute(b, key.x@[p], key.a@[p], key.mix_at(p)));
    }
}

/// If some xor byte brings the variance to zero, the level-1 search ends
/// at variance zero, and, unless one of the streams is empty, at the first
/// xor byte that does so.
pub proof fn lemma_lvl1_search_reaches_zero(du: Unigram, u: Unigram, x: u8, best: int, at: int)
    requires
        is_first_min(lvl1_cost(du, u), 256, var_scale(du, u), best, at),
        unigram_var(du, u, lvl1_table(x)) == 0,
    ensures
        best == 0,
        var_scale(du, u) > 0 ==> 0 <= at <= x && unigram_var(du, u, lvl1_table(at as u8)) == 0,
{
    let cost = lvl1_cost(du, u);
    assert(cost(x as int) == 0);
    assert forall|k: int| 0 <= k < 256 implies #[trigger] cost(k) >= 0 by {
        lemma_unigram_var_nonneg(du, u, lvl1_table(k as u8), 256);
    }
    if best < var_scale(du, u) {
        assert(cost(at) >= 0);
    }
}

/// If some pair of xor and add bytes brings the variance to zero, the
/// level-2 search ends at variance zero, and, unless one of the streams is
/// empty, at the first pair that does so.
pub proof fn lemma_lvl2_search_reaches_zero(du: Unigram, u: Unigram, x: u8, a: u8, best: int, at: int)
    requires
        is_first_min(lvl2_cost(du, u), 65536, var_scale(du, u), best, at),
        unigram_var(du, u, lvl2_table(x, a)) == 0,
    ensures
        best == 0,
        var_scale(du, u) > 0 ==> 0 <= at <= 256 * x + a && unigram_var(
            du,
            u,
            lvl2_table((at / 256) as u8, (at % 256) as u8),
        ) == 0,
{
    let cost = lvl2_cost(du, u);
    let k0 = 256 * x + a;
    assert(k0 / 256 == x && k0 % 256 == a);
    assert(cost(k0) == 0);
    assert forall|k: int| 0 <= k < 65536 implies #[trigger] cost(k) >= 0 by {
        lemma_unigram_var_nonneg(du, u, lvl2_table((k / 256) as u8, (k % 256) as u8), 256);
    }
    if best < var_scale(du, u) {
        assert(cost(at) >= 0);
    }
}

} // verus!
