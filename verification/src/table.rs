//! Substitution tables: the 256-entry byte bijections that the cipher
//! applies, how the three key components build one, and its inverse.

use crate::perm::{decode_perm, is_bit_permutation, lemma_perm_of_is_permutation, lemma_perm_of_zero, perm_of};
use vstd::prelude::*;

verus! {

/// Bit `k` of `b`, as 0 or 1. Bit 0 is the least significant.
pub open spec fn bit(b: u8, k: u8) -> u8 {
    (b >> k) & 1u8
}

/// The Hamming weight of `b`: how many of its eight bits are set.
pub open spec fn weight(b: u8) -> u8 {
    (bit(b, 0) + bit(b, 1) + bit(b, 2) + bit(b, 3) + bit(b, 4) + bit(b, 5) + bit(b, 6) + bit(
        b,
        7,
    )) as u8
}

/// The byte that has bit `k` of `b` at position `pk`, for each `k`.
pub open spec fn route(b: u8, to0: u8, to1: u8, to2: u8, to3: u8, to4: u8, to5: u8, to6: u8, to7: u8) -> u8 {
    (bit(b, 0) << to0) | (bit(b, 1) << to1) | (bit(b, 2) << to2) | (bit(b, 3) << to3) | (bit(b, 4)
        << to4) | (bit(b, 5) << to5) | (bit(b, 6) << to6) | (bit(b, 7) << to7)
}

/// Eight bit positions, no two equal.
pub open spec fn distinct_positions(
    to0: u8,
    to1: u8,
    to2: u8,
    to3: u8,
    to4: u8,
    to5: u8,
    to6: u8,
    to7: u8,
) -> bool {
    &&& to0 < 8 && to1 < 8 && to2 < 8 && to3 < 8 && to4 < 8 && to5 < 8 && to6 < 8 && to7 < 8
    &&& to0 != to1 && to0 != to2 && to0 != to3 && to0 != to4 && to0 != to5 && to0 != to6 && to0 != to7
    &&& to1 != to2 && to1 != to3 && to1 != to4 && to1 != to5 && to1 != to6 && to1 != to7
    &&& to2 != to3 && to2 != to4 && to2 != to5 && to2 != to6 && to2 != to7
    &&& to3 != to4 && to3 != to5 && to3 != to6 && to3 != to7
    &&& to4 != to5 && to4 != to6 && to4 != to7
    &&& to5 != to6 && to5 != to7
    &&& to6 != to7
}

/// `b` with its bits moved as the permutation `p` says: bit `k` goes to position `p[k]`.
pub open spec fn mix_bits(b: u8, p: Seq<int>) -> u8 {
    route(
        b,
        p[0] as u8,
        p[1] as u8,
        p[2] as u8,
        p[3] as u8,
        p[4] as u8,
        p[5] as u8,
        p[6] as u8,
        p[7] as u8,
    )
}

/// Xor with `x`, then add `a` modulo 256.
pub open spec fn xor_add(b: u8, x: u8, a: u8) -> u8 {
    ((b ^ x) + a) as u8
}

/// What the full three-component substitution maps byte `b` to.
pub open spec fn substitute(b: u8, x: u8, a: u8, m: u16) -> u8 {
    mix_bits(xor_add(b, x, a), perm_of(m as int))
}

/// The level-1 table: xor alone.
pub open spec fn lvl1_table(x: u8) -> Seq<usize> {
    Seq::new(256, |i: int| (i as u8 ^ x) as usize)
}

/// The level-2 table: xor, then add.
pub open spec fn lvl2_table(x: u8, a: u8) -> Seq<usize> {
    Seq::new(256, |i: int| xor_add(i as u8, x, a) as usize)
}

/// The level-3 table: xor, add, then the bit permutation of `m`.
pub open spec fn lvl3_table(x: u8, a: u8, m: u16) -> Seq<usize> {
    Seq::new(256, |i: int| substitute(i as u8, x, a, m) as usize)
}

/// A table maps bytes to bytes: 256 entries, each below 256.
pub open spec fn is_byte_map(t: Seq<usize>) -> bool {
    &&& t.len() == 256
    &&& forall|i: int| 0 <= i < 256 ==> #[trigger] t[i] < 256
}

/// A substitution table: a byte map in which no value occurs twice, so
/// that every value occurs exactly once.
pub open spec fn is_byte_bijection(t: Seq<usize>) -> bool {
    &&& is_byte_map(t)
    &&& forall|i: int, j: int| 0 <= i < j < 256 ==> t[i] != t[j]
}

/// `inv` undoes `t`: it sends each value of `t` back to its index.
pub open spec fn is_inverse_of(inv: Seq<usize>, t: Seq<usize>) -> bool {
    &&& inv.len() == 256
    &&& forall|i: int| 0 <= i < 256 ==> inv[#[trigger] t[i] as int] == i
}

/// Routing the bits of two different bytes to the same distinct positions
/// gives two different bytes.
pub proof fn lemma_route_injective(
    b: u8,
    c: u8,
    to0: u8,
    to1: u8,
    to2: u8,
    to3: u8,
    to4: u8,
    to5: u8,
    to6: u8,
    to7: u8,
)
    by (bit_vector)
    requires
        distinct_positions(to0, to1, to2, to3, to4, to5, to6, to7),
        route(b, to0, to1, to2, to3, to4, to5, to6, to7) == route(c, to0, to1, to2, to3, to4, to5, to6, to7),
    ensures
        b == c,
{
}

/// Routing the bits of a byte to distinct positions keeps their number.
pub proof fn lemma_route_keeps_weight(
    b: u8,
    to0: u8,
    to1: u8,
    to2: u8,
    to3: u8,
    to4: u8,
    to5: u8,
    to6: u8,
    to7: u8,
)
    by (bit_vector)
    requires
        distinct_positions(to0, to1, to2, to3, to4, to5, to6, to7),
    ensures
        weight(route(b, to0, to1, to2, to3, to4, to5, to6, to7)) == weight(b),
{
}

/// Routing every bit to its own position changes nothing.
pub proof fn lemma_route_identity(b: u8)
    by (bit_vector)
    ensures
        route(b, 0, 1, 2, 3, 4, 5, 6, 7) == b,
{
}

/// Xor and add never send two different bytes to the same byte.
pub proof fn lemma_xor_add_injective(b: u8, c: u8, x: u8, a: u8)
    by (bit_vector)
    requires
        xor_add(b, x, a) == xor_add(c, x, a),
    ensures
        b == c,
{
}

/// Adding 0 leaves the xor alone.
pub proof fn lemma_xor_add_zero(b: u8, x: u8)
    by (bit_vector)
    ensures
        xor_add(b, x, 0) == b ^ x,
{
}

/// Truncating a sum of two bytes to a byte is addition modulo 256.
pub proof fn lemma_xor_add_wraps(b: u8, x: u8, a: u8)
    by (bit_vector)
    ensures
        xor_add(b, x, a) == (if (b ^ x) + a > 255 {
            ((b ^ x) + a - 256) as u8
        } else {
            ((b ^ x) + a) as u8
        }),
{
}

/// A byte has at most eight bits set.
pub proof fn lemma_weight_bound(b: u8)
    by (bit_vector)
    ensures
        weight(b) <= 8,
{
}

/// The entries of a bit permutation, as bytes, are eight distinct positions.
pub proof fn lemma_permutation_positions(p: Seq<int>)
    requires
        is_bit_permutation(p),
    ensures
        distinct_positions(
            p[0] as u8,
            p[1] as u8,
            p[2] as u8,
            p[3] as u8,
            p[4] as u8,
            p[5] as u8,
            p[6] as u8,
            p[7] as u8,
        ),
{
    assert(0 <= p[0] < 8 && 0 <= p[1] < 8 && 0 <= p[2] < 8 && 0 <= p[3] < 8);
    assert(0 <= p[4] < 8 && 0 <= p[5] < 8 && 0 <= p[6] < 8 && 0 <= p[7] < 8);
}

/// Moving the bits of two different bytes by one permutation gives two different bytes.
pub proof fn lemma_mix_bits_injective(b: u8, c: u8, p: Seq<int>)
    requires
        is_bit_permutation(p),
        mix_bits(b, p) == mix_bits(c, p),
    ensures
        b == c,
{
    lemma_permutation_positions(p);
    lemma_route_injective(
        b,
        c,
        p[0] as u8,
        p[1] as u8,
        p[2] as u8,
        p[3] as u8,
        p[4] as u8,
        p[5] as u8,
        p[6] as u8,
        p[7] as u8,
    );
}

/// Moving the bits of a byte leaves its Hamming weight as it was.
pub proof fn lemma_mix_bits_keeps_weight(b: u8, p: Seq<int>)
    requires
        is_bit_permutation(p),
    ensures
        weight(mix_bits(b, p)) == weight(b),
{
    lemma_permutation_positions(p);
    lemma_route_keeps_weight(
        b,
        p[0] as u8,
        p[1] as u8,
        p[2] as u8,
        p[3] as u8,
        p[4] as u8,
        p[5] as u8,
        p[6] as u8,
        p[7] as u8,
    );
}

/// The Hamming weight of a byte.
pub fn compute_hamming_weight(a: u8) -> (w: u8)
    ensures
        w == weight(a),
        w <= 8,
{
    proof {
        lemma_weight_bound(a);
        assert(bit(a, 0) <= 1 && bit(a, 1) <= 1 && bit(a, 2) <= 1 && bit(a, 3) <= 1 && bit(a, 4)
            <= 1 && bit(a, 5) <= 1 && bit(a, 6) <= 1 && bit(a, 7) <= 1) by (bit_vector);
    }
    ((a >> 0u8) & 1u8) + ((a >> 1u8) & 1u8) + ((a >> 2u8) & 1u8) + ((a >> 3u8) & 1u8) + ((a >> 4u8)
        & 1u8) + ((a >> 5u8) & 1u8) + ((a >> 6u8) & 1u8) + ((a >> 7u8) & 1u8)
}

/// Fills `sub` with the level-1 table of `x`: `sub[i] = i ^ x`.
pub fn gen_lvl1_sub(x: u8, sub: &mut [usize; 256])
    ensures
        final(sub)@ == lvl1_table(x),
        is_byte_bijection(final(sub)@),
{
    let mut i: usize = 0;
    while i < 256
        invariant
            i <= 256,
            forall|k: int| 0 <= k < i ==> #[trigger] sub@[k] == lvl1_table(x)[k],
        decreases 256 - i,
    {
        sub[i] = ((i as u8) ^ x) as usize;
        i += 1;
    }
    proof {
        assert(sub@ =~= lvl1_table(x));
        lemma_lvl1_table_bijective(x);
    }
}

/// Fills `sub` with the level-2 table of `(x, a)`: `sub[i] = (i ^ x) + a` modulo 256.
pub fn gen_lvl2_sub(x: u8, a: u8, sub: &mut [usize; 256])
    ensures
        final(sub)@ == lvl2_table(x, a),
        is_byte_bijection(final(sub)@),
{
    let mut i: usize = 0;
    while i < 256
        invariant
            i <= 256,
            forall|k: int| 0 <= k < i ==> #[trigger] sub@[k] == lvl2_table(x, a)[k],
        decreases 256 - i,
    {
        proof {
            lemma_xor_add_wraps(i as u8, x, a);
        }
        sub[i] = ((i as u8) ^ x).wrapping_add(a) as usize;
        i += 1;
    }
    proof {
        assert(sub@ =~= lvl2_table(x, a));
        lemma_lvl2_table_bijective(x, a);
    }
}

/// Fills `sub` with the level-3 table of `(x, a, m)`: xor with `x`, add `a`
/// modulo 256, then route bit `k` to position `p[k]`, where `p` is the
/// permutation that `m` encodes.
pub fn gen_lvl3_sub(x: u8, a: u8, m: u16, sub: &mut [usize; 256])
    ensures
        final(sub)@ == lvl3_table(x, a, m),
        is_byte_bijection(final(sub)@),
{
    let p = decode_perm(m);
    let ghost q = perm_of(m as int);
    let mut i: usize = 0;
    while i < 256
        invariant
            i <= 256,
            q == perm_of(m as int),
            is_bit_permutation(q),
            p@.len() == 8,
            forall|k: int| 0 <= k < 8 ==> #[trigger] p@[k] as int == q[k],
            forall|k: int| 0 <= k < i ==> #[trigger] sub@[k] == lvl3_table(x, a, m)[k],
        decreases 256 - i,
    {
        let b = ((i as u8) ^ x).wrapping_add(a);
        proof {
            lemma_xor_add_wraps(i as u8, x, a);
            assert(b == xor_add(i as u8, x, a));
            assert(q[0] == p@[0] && q[1] == p@[1] && q[2] == p@[2] && q[3] == p@[3]);
            assert(q[4] == p@[4] && q[5] == p@[5] && q[6] == p@[6] && q[7] == p@[7]);
        }
        let v: u8 = (((b >> 0u8) & 1u8) << p[0]) | (((b >> 1u8) & 1u8) << p[1]) | (((b >> 2u8)
            & 1u8) << p[2]) | (((b >> 3u8) & 1u8) << p[3]) | (((b >> 4u8) & 1u8) << p[4]) | (((b
            >> 5u8) & 1u8) << p[5]) | (((b >> 6u8) & 1u8) << p[6]) | (((b >> 7u8) & 1u8) << p[7]);
        sub[i] = v as usize;
        i += 1;
    }
    proof {
        assert(sub@ =~= lvl3_table(x, a, m));
        lemma_lvl3_table_bijective(x, a, m);
    }
}

/// Fills `sub` with the cipher's substitution for one key position `(x, a, m)`.
pub fn gen_sub(x: u8, a: u8, m: u16, sub: &mut [usize; 256])
    ensures
        final(sub)@ == lvl3_table(x, a, m),
        is_byte_bijection(final(sub)@),
{
    gen_lvl3_sub(x, a, m, sub);
}

/// Replaces the substitution in `sub` by its inverse.
pub fn inv_sub(sub: &mut [usize; 256])
    requires
        is_byte_bijection(old(sub)@),
    ensures
        is_inverse_of(final(sub)@, old(sub)@),
        is_inverse_of(old(sub)@, final(sub)@),
        is_byte_bijection(final(sub)@),
{
    let mut c: [usize; 256] = [0; 256];
    let mut i: usize = 0;
    while i < 256
        invariant
            i <= 256,
            sub@ == old(sub)@,
            forall|k: int| 0 <= k < i ==> #[trigger] c@[k] == sub@[k],
        decreases 256 - i,
    {
        c[i] = sub[i];
        i += 1;
    }
    assert(c@ =~= old(sub)@);
    i = 0;
    while i < 256
        invariant
            i <= 256,
            c@ == old(sub)@,
            is_byte_bijection(c@),
            forall|k: int| 0 <= k < i ==> sub@[#[trigger] c@[k] as int] == k,
        decreases 256 - i,
    {
        sub[c[i]] = i;
        i += 1;
    }
    proof {
        lemma_inverse_is_bijection(old(sub)@, sub@);
    }
}

/// The level-1 table is a bijection on bytes.
pub proof fn lemma_lvl1_table_bijective(x: u8)
    ensures
        is_byte_bijection(lvl1_table(x)),
{
    let t = lvl1_table(x);
    assert forall|i: int, j: int| 0 <= i < j < 256 implies t[i] != t[j] by {
        let b = i as u8;
        let c = j as u8;
        assert(b ^ x == c ^ x ==> b == c) by (bit_vector);
    }
}

/// The level-2 table is a bijection on bytes.
pub proof fn lemma_lvl2_table_bijective(x: u8, a: u8)
    ensures
        is_byte_bijection(lvl2_table(x, a)),
{
    let t = lvl2_table(x, a);
    assert forall|i: int, j: int| 0 <= i < j < 256 implies t[i] != t[j] by {
        if xor_add(i as u8, x, a) == xor_add(j as u8, x, a) {
            lemma_xor_add_injective(i as u8, j as u8, x, a);
        }
    }
}

/// For every key position `(x, a, m)` the substitution is a bijection on bytes.
pub proof fn lemma_lvl3_table_bijective(x: u8, a: u8, m: u16)
    ensures
        is_byte_bijection(lvl3_table(x, a, m)),
{
    let t = lvl3_table(x, a, m);
    let p = perm_of(m as int);
    lemma_perm_of_is_permutation(m as int);
    assert forall|i: int, j: int| 0 <= i < j < 256 implies t[i] != t[j] by {
        let b = xor_add(i as u8, x, a);
        let c = xor_add(j as u8, x, a);
        if mix_bits(b, p) == mix_bits(c, p) {
            lemma_mix_bits_injective(b, c, p);
            lemma_xor_add_injective(i as u8, j as u8, x, a);
        }
    }
}

/// With nothing added and the identity permutation, the level-3 table is the level-1 table.
pub proof fn lemma_lvl3_degenerates_to_lvl1(x: u8)
    ensures
        lvl3_table(x, 0, 0) == lvl1_table(x),
        forall|a: u8| lvl3_table(x, a, 0) == lvl2_table(x, a),
{
    lemma_perm_of_zero();
    assert forall|i: int| 0 <= i < 256 implies lvl3_table(x, 0, 0)[i] == lvl1_table(x)[i] by {
        lemma_xor_add_zero(i as u8, x);
        lemma_route_identity(xor_add(i as u8, x, 0));
    }
    assert(lvl3_table(x, 0, 0) =~= lvl1_table(x));
    assert forall|a: u8| lvl3_table(x, a, 0) == lvl2_table(x, a) by {
        assert forall|i: int| 0 <= i < 256 implies lvl3_table(x, a, 0)[i] == lvl2_table(x, a)[i] by {
            lemma_route_identity(xor_add(i as u8, x, a));
        }
        assert(lvl3_table(x, a, 0) =~= lvl2_table(x, a));
    }
}

/// In a bijection on bytes every byte value occurs.
pub proof fn lemma_bijection_onto(t: Seq<usize>, v: int)
    requires
        is_byte_bijection(t),
        0 <= v < 256,
    ensures
        exists|i: int| 0 <= i < 256 && t[i] == v,
{
    let s = Seq::new(256, |i: int| t[i] as int);
    assert(s.no_duplicates());
    s.unique_seq_to_set();
    vstd::set_lib::lemma_int_range(0, 256);
    let all = vstd::set_lib::set_int_range(0, 256);
    assert(s.to_set().subset_of(all)) by {
        assert forall|w: int| s.to_set().contains(w) implies all.contains(w) by {
            let i = choose|i: int| 0 <= i < s.len() && s[i] == w;
            assert(t[i] < 256);
        }
    }
    vstd::set_lib::lemma_set_subset_finite(all, s.to_set());
    vstd::set_lib::lemma_subset_equality(s.to_set(), all);
    assert(all.contains(v));
    assert(s.to_set().contains(v));
    let i = choose|i: int| 0 <= i < s.len() && s[i] == v;
    assert(0 <= i < 256 && t[i] == v);
}

/// What undoes a bijection on bytes is itself a bijection on bytes, and the
/// first undoes it in turn: inverting twice gives the table back.
pub proof fn lemma_inverse_is_bijection(t: Seq<usize>, inv: Seq<usize>)
    requires
        is_byte_bijection(t),
        is_inverse_of(inv, t),
    ensures
        is_byte_bijection(inv),
        is_inverse_of(t, inv),
{
    assert forall|v: int| 0 <= v < 256 implies #[trigger] inv[v] < 256 && t[inv[v] as int] == v by {
        lemma_bijection_onto(t, v);
        let i = choose|i: int| 0 <= i < 256 && t[i] == v;
        assert(inv[t[i] as int] == i);
    }
    assert forall|v: int, w: int| 0 <= v < w < 256 implies inv[v] != inv[w] by {
        assert(t[inv[v] as int] == v);
        assert(t[inv[w] as int] == w);
    }
    assert forall|v: int| 0 <= v < 256 implies t[#[trigger] inv[v] as int] == v by {}
}

/// For every key position `(x, a, m)` and every byte `b`, the inverse of the
/// substitution sends the image of `b` back to `b`.
pub proof fn lemma_inverse_round_trip(x: u8, a: u8, m: u16, inv: Seq<usize>, b: u8)
    requires
        is_inverse_of(inv, lvl3_table(x, a, m)),
    ensures
        inv[substitute(b, x, a, m) as int] == b,
{
    let t = lvl3_table(x, a, m);
    assert(t[b as int] == substitute(b, x, a, m));
    assert(inv[t[b as int] as int] == b);
}

/// The inverse of a substitution table is unique.
pub proof fn lemma_inverse_unique(t: Seq<usize>, inv1: Seq<usize>, inv2: Seq<usize>)
    requires
        is_byte_bijection(t),
        is_inverse_of(inv1, t),
        is_inverse_of(inv2, t),
    ensures
        inv1 == inv2,
{
    assert forall|v: int| 0 <= v < 256 implies inv1[v] == inv2[v] by {
        lemma_bijection_onto(t, v);
        let i = choose|i: int| 0 <= i < 256 && t[i] == v;
        assert(inv1[t[i] as int] == i);
        assert(inv2[t[i] as int] == i);
    }
    assert(inv1 =~= inv2);
}

} // verus!
