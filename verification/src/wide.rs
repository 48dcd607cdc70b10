//! Comparison of two products that need more than 128 bits.

use vstd::prelude::*;

verus! {

/// 2^64.
pub open spec fn limb() -> int {
    0x1_0000_0000_0000_0000
}

/// A 128-bit number splits into two 64-bit halves.
proof fn lemma_split(a: u128)
    by (bit_vector)
    ensures
        a == (a >> 64) * 0x1_0000_0000_0000_0000 + (a & 0xffff_ffff_ffff_ffff),
        (a >> 64) < 0x1_0000_0000_0000_0000,
        (a & 0xffff_ffff_ffff_ffff) < 0x1_0000_0000_0000_0000,
{
}

/// The product `a * b` as `hi * 2^64 + lo` with `lo` below 2^64.
pub fn mul_wide(a: u128, b: u32) -> (r: (u128, u128))
    ensures
        r.0 * limb() + r.1 == a * b,
        r.1 < limb(),
{
    let a_hi: u128 = a >> 64;
    let a_lo: u128 = a & 0xffff_ffff_ffff_ffff;
    proof {
        lemma_split(a);
        assert(a_hi * (b as int) < 0x1_0000_0000_0000_0000_0000_0000 && a_lo * (b as int)
            < 0x1_0000_0000_0000_0000_0000_0000) by (nonlinear_arith)
            requires
                a_hi < 0x1_0000_0000_0000_0000,
                a_lo < 0x1_0000_0000_0000_0000,
                b < 0x1_0000_0000,
        ;
    }
    let t: u128 = a_lo * (b as u128);
    let u: u128 = a_hi * (b as u128);
    proof {
        lemma_split(t);
        assert((t >> 64) < 0x1_0000_0000) by (bit_vector)
            requires
                t < 0x1_0000_0000_0000_0000_0000_0000,
        ;
        assert((a_hi * limb() + a_lo) * b == a_hi * b * limb() + a_lo * b) by (nonlinear_arith);
    }
    let hi: u128 = u + (t >> 64);
    let lo: u128 = t & 0xffff_ffff_ffff_ffff;
    (hi, lo)
}

/// Whether `a * b` exceeds `c * d`.
pub fn product_exceeds(a: u128, b: u32, c: u128, d: u32) -> (r: bool)
    ensures
        r == (a * b > c * d),
{
    let p = mul_wide(a, b);
    let q = mul_wide(c, d);
    p.0 > q.0 || (p.0 == q.0 && p.1 > q.1)
}

} // verus!
