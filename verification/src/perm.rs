//! The permutation codec: a 16-bit index selects one of the 8! = 40320
//! orderings of the bit positions 0..8, by factorial-base decoding.

use vstd::prelude::*;

verus! {

/// Number of distinct bit permutations, 8!.
pub const PERM_COUNT: u16 = 40320;

/// The mixed-radix bases 40320, 5040, 720, 120, 24, 6, 2, 1, 1.
pub open spec fn radix(i: int) -> int {
    if i <= 0 {
        40320
    } else if i == 1 {
        5040
    } else if i == 2 {
        720
    } else if i == 3 {
        120
    } else if i == 4 {
        24
    } else if i == 5 {
        6
    } else if i == 6 {
        2
    } else {
        1
    }
}

/// The `i`-th factorial-base digit of `m`: a zero-based rank among the
/// bit positions that the earlier digits left free.
pub open spec fn digit(m: int, i: int) -> int {
    (m % radix(i)) / radix(i + 1)
}

/// How many positions at or after `j` are still free.
pub open spec fn free_count(used: Seq<bool>, j: int) -> int
    decreases used.len() - j,
{
    if j < 0 || j >= used.len() {
        0
    } else {
        (if used[j] { 0int } else { 1int }) + free_count(used, j + 1)
    }
}

/// The free position reached from `j` after skipping `r` free positions
/// (`used.len()` when there is none).
pub open spec fn nth_free(used: Seq<bool>, r: int, j: int) -> int
    decreases used.len() - j,
{
    if j < 0 || j >= used.len() {
        used.len() as int
    } else if used[j] {
        nth_free(used, r, j + 1)
    } else if r <= 0 {
        j
    } else {
        nth_free(used, r - 1, j + 1)
    }
}

/// Which positions the first `i` entries of the permutation of `m` occupy.
pub open spec fn used_after(m: int, i: int) -> Seq<bool>
    decreases i,
{
    if i <= 0 {
        Seq::new(8, |j: int| false)
    } else {
        let u = used_after(m, i - 1);
        u.update(nth_free(u, digit(m, i - 1), 0), true)
    }
}

/// Entry `i` of the permutation that `m` encodes: the `digit(m, i)`-th
/// smallest position that entries `0..i` have not taken.
pub open spec fn perm_entry(m: int, i: int) -> int {
    nth_free(used_after(m, i), digit(m, i), 0)
}

/// The permutation that `m` encodes.
pub open spec fn perm_of(m: int) -> Seq<int> {
    Seq::new(8, |i: int| perm_entry(m, i))
}

/// `p` orders the eight bit positions: eight entries in `0..8`, no two equal.
pub open spec fn is_bit_permutation(p: Seq<int>) -> bool {
    &&& p.len() == 8
    &&& forall|i: int| 0 <= i < 8 ==> 0 <= #[trigger] p[i] < 8
    &&& forall|i: int, j: int| 0 <= i < j < 8 ==> p[i] != p[j]
}

/// Digit `i` ranks among the `8 - i` positions that are still free.
pub proof fn lemma_digit_range(m: int, i: int)
    requires
        0 <= m,
        0 <= i < 8,
    ensures
        0 <= digit(m, i) < 8 - i,
{
}

/// Folding: an index and its remainder modulo 40320 have the same digits.
pub proof fn lemma_digit_folds(m: int, i: int)
    requires
        0 <= m,
        0 <= i < 8,
    ensures
        digit(m, i) == digit(m % 40320, i),
{
    let d = radix(i);
    let k = 40320int / d;
    assert(40320 == k * d && d > 0 && k > 0) by {
        assert(40320int / 5040 == 8 && 40320int / 720 == 56 && 40320int / 120 == 336);
        assert(40320int / 24 == 1680 && 40320int / 6 == 6720 && 40320int / 2 == 20160);
    }
    assert((m % 40320) % d == m % d) by (nonlinear_arith)
        requires
            40320 == k * d,
            d > 0,
            k > 0,
            m >= 0,
    {
        vstd::arithmetic::div_mod::lemma_mod_mod(m, d, k);
    }
}

/// One step of the factorial-base expansion.
pub proof fn lemma_digit_step(m: int, i: int)
    requires
        0 <= m,
        0 <= i < 8,
    ensures
        m % radix(i) == digit(m, i) * radix(i + 1) + m % radix(i + 1),
{
    let c = radix(i);
    let d = radix(i + 1);
    let k = c / d;
    assert(c == k * d && d > 0 && k > 0) by {
        assert(40320int / 5040 == 8 && 5040int / 720 == 7 && 720int / 120 == 6 && 120int / 24 == 5);
    }
    let r = m % c;
    assert((r / d) * d + r % d == r) by (nonlinear_arith)
        requires
            d > 0,
    ;
    assert(r % d == m % d) by (nonlinear_arith)
        requires
            r == m % c,
            c == k * d,
            d > 0,
            k > 0,
            m >= 0,
    {
        vstd::arithmetic::div_mod::lemma_mod_mod(m, d, k);
    }
}

/// The digits determine the index modulo 40320.
pub proof fn lemma_digits_rebuild(m: int)
    requires
        0 <= m,
    ensures
        m % 40320 == digit(m, 0) * 5040 + digit(m, 1) * 720 + digit(m, 2) * 120 + digit(m, 3) * 24
            + digit(m, 4) * 6 + digit(m, 5) * 2 + digit(m, 6),
{
    lemma_digit_step(m, 0);
    lemma_digit_step(m, 1);
    lemma_digit_step(m, 2);
    lemma_digit_step(m, 3);
    lemma_digit_step(m, 4);
    lemma_digit_step(m, 5);
    lemma_digit_step(m, 6);
}

/// Skipping fewer free positions than there are lands on a free position,
/// with exactly `r` free positions passed on the way.
pub proof fn lemma_nth_free(used: Seq<bool>, r: int, j: int)
    requires
        0 <= j <= used.len(),
        0 <= r < free_count(used, j),
    ensures
        j <= nth_free(used, r, j) < used.len(),
        !used[nth_free(used, r, j)],
        free_count(used, j) - free_count(used, nth_free(used, r, j)) == r,
    decreases used.len() - j,
{
    if j < used.len() {
        if used[j] {
            lemma_nth_free(used, r, j + 1);
        } else if r > 0 {
            lemma_nth_free(used, r - 1, j + 1);
        }
    }
}

/// Taking a free position lowers the count of free positions before it by one.
pub proof fn lemma_free_count_take(used: Seq<bool>, k: int, j: int)
    requires
        0 <= j <= used.len(),
        0 <= k < used.len(),
        !used[k],
    ensures
        free_count(used.update(k, true), j) == free_count(used, j) - (if j <= k { 1int } else { 0int }),
    decreases used.len() - j,
{
    if j < used.len() {
        lemma_free_count_take(used, k, j + 1);
    }
}

/// After `i` entries, exactly the positions those entries hold are taken.
pub proof fn lemma_used_after(m: int, i: int)
    requires
        0 <= m,
        0 <= i <= 8,
    ensures
        used_after(m, i).len() == 8,
        free_count(used_after(m, i), 0) == 8 - i,
        forall|k: int| 0 <= k < i ==> 0 <= #[trigger] perm_entry(m, k) < 8,
        forall|k: int| 0 <= k < i ==> used_after(m, i)[#[trigger] perm_entry(m, k)],
        forall|j: int|
            0 <= j < 8 && #[trigger] used_after(m, i)[j] ==> exists|k: int|
                0 <= k < i && perm_entry(m, k) == j,
        i < 8 ==> 0 <= perm_entry(m, i) < 8 && !used_after(m, i)[perm_entry(m, i)],
    decreases i,
{
    if i == 0 {
        lemma_free_count_none(8, 0);
    } else {
        lemma_used_after(m, i - 1);
        let u = used_after(m, i - 1);
        let e = perm_entry(m, i - 1);
        lemma_free_count_take(u, e, 0);
        assert(used_after(m, i) == u.update(e, true));
        assert forall|j: int| 0 <= j < 8 && #[trigger] used_after(m, i)[j] implies exists|k: int|
            0 <= k < i && perm_entry(m, k) == j by {
            if j == e {
                assert(perm_entry(m, i - 1) == j);
            } else {
                assert(u[j]);
                let k = choose|k: int| 0 <= k < i - 1 && perm_entry(m, k) == j;
                assert(0 <= k < i && perm_entry(m, k) == j);
            }
        }
    }
    if i < 8 {
        lemma_digit_range(m, i);
        lemma_nth_free(used_after(m, i), digit(m, i), 0);
    }
}

/// With nothing taken, every position from `j` on is free.
pub proof fn lemma_free_count_none(n: nat, j: int)
    requires
        0 <= j <= n,
    ensures
        free_count(Seq::new(n, |k: int| false), j) == n - j,
    decreases n - j,
{
    if j < n {
        lemma_free_count_none(n, j + 1);
    }
}

/// Every index decodes to a permutation of the eight bit positions.
pub proof fn lemma_perm_of_is_permutation(m: int)
    requires
        0 <= m,
    ensures
        is_bit_permutation(perm_of(m)),
{
    let p = perm_of(m);
    assert forall|i: int| 0 <= i < 8 implies 0 <= #[trigger] p[i] < 8 by {
        lemma_used_after(m, i);
    }
    assert forall|i: int, j: int| 0 <= i < j < 8 implies p[i] != p[j] by {
        lemma_used_after(m, j);
        assert(used_after(m, j)[perm_entry(m, i)]);
    }
}

/// Two indices with the same permutation agree modulo 40320; so two
/// distinct indices below 40320 decode to distinct permutations.
pub proof fn lemma_perm_of_injective(m1: int, m2: int)
    requires
        0 <= m1,
        0 <= m2,
        perm_of(m1) == perm_of(m2),
    ensures
        m1 % 40320 == m2 % 40320,
{
    lemma_same_entries_same_digits(m1, m2, 8);
    lemma_digits_rebuild(m1);
    lemma_digits_rebuild(m2);
}

/// Two distinct indices below 40320 decode to two distinct permutations.
pub proof fn lemma_distinct_indices_distinct_perms(m1: int, m2: int)
    requires
        0 <= m1 < 40320,
        0 <= m2 < 40320,
        m1 != m2,
    ensures
        perm_of(m1) != perm_of(m2),
{
    if perm_of(m1) == perm_of(m2) {
        lemma_perm_of_injective(m1, m2);
    }
}

/// With the same permutation come the same taken positions and the same digits.
proof fn lemma_same_entries_same_digits(m1: int, m2: int, i: int)
    requires
        0 <= m1,
        0 <= m2,
        0 <= i <= 8,
        perm_of(m1) == perm_of(m2),
    ensures
        used_after(m1, i) == used_after(m2, i),
        forall|k: int| 0 <= k < i ==> #[trigger] digit(m1, k) == digit(m2, k),
    decreases i,
{
    if i > 0 {
        lemma_same_entries_same_digits(m1, m2, i - 1);
        let u = used_after(m1, i - 1);
        assert(perm_of(m1)[i - 1] == perm_entry(m1, i - 1));
        assert(perm_of(m2)[i - 1] == perm_entry(m2, i - 1));
        lemma_used_after(m1, i - 1);
        lemma_digit_range(m1, i - 1);
        lemma_digit_range(m2, i - 1);
        lemma_nth_free(u, digit(m1, i - 1), 0);
        lemma_nth_free(u, digit(m2, i - 1), 0);
    }
}

/// The identity: index 0 leaves every bit in place.
pub proof fn lemma_perm_of_zero()
    ensures
        perm_of(0) == seq![0int, 1, 2, 3, 4, 5, 6, 7],
{
    lemma_perm_prefix_low(0, 8);
    assert(perm_of(0) =~= seq![0int, 1, 2, 3, 4, 5, 6, 7]);
}

/// While every digit so far is 0, entry `k` is `k` and the taken positions are `0..i`.
proof fn lemma_perm_prefix_low(m: int, i: int)
    requires
        0 <= i <= 8,
        forall|k: int| 0 <= k < 8 ==> #[trigger] digit(m, k) == 0,
    ensures
        used_after(m, i) == Seq::new(8, |j: int| j < i),
        forall|k: int| 0 <= k < i ==> #[trigger] perm_entry(m, k) == k,
        i < 8 ==> perm_entry(m, i) == i,
    decreases i,
{
    if i == 0 {
        assert(used_after(m, 0) =~= Seq::new(8, |j: int| j < 0));
    } else {
        lemma_perm_prefix_low(m, i - 1);
        assert(used_after(m, i) =~= Seq::new(8, |j: int| j < i));
    }
    if i < 8 {
        let u = Seq::new(8, |j: int| j < i);
        lemma_first_free_after_prefix(u, i, 0);
    }
}

/// When exactly the positions below `i` are taken, the first free one is `i`.
proof fn lemma_first_free_after_prefix(u: Seq<bool>, i: int, j: int)
    requires
        0 <= j <= i < u.len(),
        forall|k: int| 0 <= k < u.len() ==> u[k] == (k < i),
    ensures
        nth_free(u, 0, j) == i,
    decreases i - j,
{
    if j < i {
        lemma_first_free_after_prefix(u, i, j + 1);
    }
}

/// Decodes `m` into its permutation of the bit positions.
///
/// Entry `i` names the position to which bit `i` is routed. Indices from
/// 40320 upward fold onto `m % 40320`.
pub fn decode_perm(m: u16) -> (p: [u8; 8])
    ensures
        p@.len() == 8,
        forall|i: int| 0 <= i < 8 ==> #[trigger] p@[i] as int == perm_of(m as int)[i],
        is_bit_permutation(perm_of(m as int)),
        perm_of(m as int) == perm_of(m as int % 40320),
{
    let c: [u16; 9] = [40320, 5040, 720, 120, 24, 6, 2, 1, 1];
    let mut used: [bool; 8] = [false; 8];
    let mut p: [u8; 8] = [0; 8];
    proof {
        assert(used@ =~= used_after(m as int, 0));
        lemma_perm_of_is_permutation(m as int);
        lemma_perm_of_folds(m as int);
    }
    let mut i: usize = 0;
    while i < 8
        invariant
            i <= 8,
            c@ == seq![40320u16, 5040, 720, 120, 24, 6, 2, 1, 1],
            used@ == used_after(m as int, i as int),
            forall|k: int| 0 <= k < i ==> #[trigger] p@[k] as int == perm_entry(m as int, k),
        decreases 8 - i,
    {
        let ghost r0 = digit(m as int, i as int);
        let mut r: u16 = (m % c[i]) / c[i + 1];
        let mut j: usize = 0;
        proof {
            assert(c@[i as int] as int == radix(i as int));
            assert(c@[i + 1] as int == radix(i + 1));
            assert(r as int == r0);
            lemma_used_after(m as int, i as int);
            lemma_digit_range(m as int, i as int);
            lemma_nth_free(used@, r0, 0);
        }
        while used[j] || r > 0
            invariant
                j < 8,
                used@.len() == 8,
                0 <= r,
                nth_free(used@, r as int, j as int) == nth_free(used@, r0, 0),
                nth_free(used@, r0, 0) < 8,
            decreases 8 - j,
        {
            if !used[j] {
                r -= 1;
            }
            j += 1;
            proof {
                if j == 8 {
                    assert(nth_free(used@, r as int, 8) == 8);
                }
            }
        }
        p[i] = j as u8;
        used[j] = true;
        proof {
            assert(j as int == perm_entry(m as int, i as int));
            assert(used@ =~= used_after(m as int, i + 1));
        }
        i += 1;
    }
    p
}

/// An index and its remainder modulo 40320 decode alike.
pub proof fn lemma_perm_of_folds(m: int)
    requires
        0 <= m,
    ensures
        perm_of(m) == perm_of(m % 40320),
{
    lemma_used_after_folds(m, 8);
    assert forall|i: int| 0 <= i < 8 implies perm_entry(m, i) == perm_entry(m % 40320, i) by {
        lemma_used_after_folds(m, i);
        lemma_digit_folds(m, i);
    }
    assert(perm_of(m) =~= perm_of(m % 40320));
}

/// An index and its remainder modulo 40320 take the same positions.
proof fn lemma_used_after_folds(m: int, i: int)
    requires
        0 <= m,
        0 <= i <= 8,
    ensures
        used_after(m, i) == used_after(m % 40320, i),
    decreases i,
{
    if i > 0 {
        lemma_used_after_folds(m, i - 1);
        lemma_digit_folds(m, i - 1);
    }
}

} // verus!
