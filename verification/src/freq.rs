//! Frequency tools: exact byte counts of a stream and of its residue
//! classes. A unigram distribution is kept as counts over a total, so that
//! the probability of byte `v` is `counts[v] / total`.

use vstd::prelude::*;

verus! {

/// The longest stream that a unigram may count, 2^28 bytes. It keeps every
/// cost that compares two unigrams within 128 bits.
pub const MAX_TOTAL: u64 = 268_435_456;

/// How many bytes of `data` lie at the offsets `i, i + l, i + 2l, ...`.
pub open spec fn stride_len(data: Seq<u8>, i: int, l: int) -> nat
    decreases (if i < data.len() { data.len() - i } else { 0 }),
{
    if i < 0 || l <= 0 || i >= data.len() {
        0
    } else {
        1 + stride_len(data, i + l, l)
    }
}

/// How many of the bytes of `data` at the offsets `i, i + l, i + 2l, ...` equal `v`.
pub open spec fn stride_count(data: Seq<u8>, i: int, l: int, v: u8) -> nat
    decreases (if i < data.len() { data.len() - i } else { 0 }),
{
    if i < 0 || l <= 0 || i >= data.len() {
        0
    } else {
        (if data[i] == v { 1nat } else { 0nat }) + stride_count(data, i + l, l, v)
    }
}

/// The sum of the first `n` counts.
pub open spec fn sum_counts(counts: Seq<u64>, n: int) -> int
    decreases n,
{
    if n <= 0 {
        0
    } else {
        sum_counts(counts, n - 1) + counts[n - 1]
    }
}

/// An empirical single-byte distribution: byte `v` has probability
/// `counts[v] / total`.
#[derive(Clone, Copy)]
pub struct Unigram {
    pub counts: [u64; 256],
    pub total: u64,
}

impl Unigram {
    /// The counts add up to the total, and the total is within the limit.
    pub open spec fn wf(&self) -> bool {
        &&& sum_counts(self.counts@, 256) == self.total
        &&& self.total <= MAX_TOTAL
    }

    /// This is the unigram of residue class `p` modulo `l` of `data`.
    pub open spec fn describes(&self, data: Seq<u8>, p: int, l: int) -> bool {
        &&& self.wf()
        &&& self.total == stride_len(data, p, l)
        &&& forall|v: u8| #[trigger] self.counts@[v as int] == stride_count(data, p, l, v)
    }

    /// The unigram of the empty stream.
    pub fn new() -> (u: Unigram)
        ensures
            u.wf(),
            u.total == 0,
            forall|i: int| 0 <= i < 256 ==> #[trigger] u.counts@[i] == 0,
    {
        let u = Unigram { counts: [0u64; 256], total: 0 };
        proof {
            lemma_sum_counts_zero(u.counts@, 256);
        }
        u
    }
}

/// The unigram of residue class `p` modulo `l` of `data`.
pub open spec fn unigram_of(data: Seq<u8>, p: int, l: int) -> Unigram {
    choose|u: Unigram| u.describes(data, p, l)
}

/// Counts that are all zero add up to zero.
pub proof fn lemma_sum_counts_zero(counts: Seq<u64>, n: int)
    requires
        0 <= n <= counts.len(),
        forall|i: int| 0 <= i < n ==> #[trigger] counts[i] == 0,
    ensures
        sum_counts(counts, n) == 0,
    decreases n,
{
    if n > 0 {
        lemma_sum_counts_zero(counts, n - 1);
    }
}

/// Raising one count by one raises the sum by one.
pub proof fn lemma_sum_counts_bump(counts: Seq<u64>, k: int, c: u64, n: int)
    requires
        0 <= n <= counts.len(),
        0 <= k < counts.len(),
        c == counts[k] + 1,
    ensures
        sum_counts(counts.update(k, c), n) == sum_counts(counts, n) + (if k < n { 1int } else { 0int }),
    decreases n,
{
    if n > 0 {
        lemma_sum_counts_bump(counts, k, c, n - 1);
    }
}

/// No single count exceeds the sum of all of them.
pub proof fn lemma_count_le_sum(counts: Seq<u64>, k: int, n: int)
    requires
        0 <= k < n <= counts.len(),
    ensures
        counts[k] <= sum_counts(counts, n),
        0 <= sum_counts(counts, n),
    decreases n,
{
    lemma_sum_counts_nonneg(counts, n - 1);
    if k < n - 1 {
        lemma_count_le_sum(counts, k, n - 1);
    }
}

/// A sum of counts is never negative.
pub proof fn lemma_sum_counts_nonneg(counts: Seq<u64>, n: int)
    requires
        n <= counts.len(),
    ensures
        0 <= sum_counts(counts, n),
    decreases n,
{
    if n > 0 {
        lemma_sum_counts_nonneg(counts, n - 1);
    }
}

/// A stride holds no more bytes than lie at or after its first offset.
pub proof fn lemma_stride_len_bound(data: Seq<u8>, i: int, l: int)
    requires
        0 <= i,
    ensures
        stride_len(data, i, l) <= (if i < data.len() { data.len() - i } else { 0 }),
    decreases (if i < data.len() { data.len() - i } else { 0 }),
{
    if l > 0 && i < data.len() {
        lemma_stride_len_bound(data, i + l, l);
    }
}

/// Counts the bytes of residue class `p` modulo `l` of `data`: those at the
/// offsets `p, p + l, p + 2l, ...`.
pub fn residue_unigram(data: &[u8], p: usize, l: usize) -> (u: Unigram)
    requires
        l > 0,
        data@.len() <= MAX_TOTAL,
    ensures
        u.describes(data@, p as int, l as int),
        u == unigram_of(data@, p as int, l as int),
{
    let mut u = Unigram::new();
    let n = data.len();
    let mut i: usize = p;
    proof {
        lemma_stride_len_bound(data@, p as int, l as int);
    }
    while i < n
        invariant
            l > 0,
            n == data@.len(),
            n <= MAX_TOTAL,
            p <= i,
            sum_counts(u.counts@, 256) == u.total,
            u.total + stride_len(data@, i as int, l as int) == stride_len(data@, p as int, l as int),
            stride_len(data@, p as int, l as int) <= n,
            forall|v: u8|
                #[trigger] u.counts@[v as int] + stride_count(data@, i as int, l as int, v)
                    == stride_count(data@, p as int, l as int, v),
        decreases n - i,
    {
        let b = data[i];
        proof {
            lemma_count_le_sum(u.counts@, b as int, 256);
            lemma_sum_counts_bump(u.counts@, b as int, (u.counts@[b as int] + 1) as u64, 256);
        }
        let ghost before = u.counts@;
        u.counts[b as usize] = u.counts[b as usize] + 1;
        u.total = u.total + 1;
        proof {
            assert(u.counts@ == before.update(b as int, (before[b as int] + 1) as u64));
            assert forall|v: u8|
                #[trigger] u.counts@[v as int] + stride_count(
                    data@,
                    if l >= n - i { n as int } else { i + l },
                    l as int,
                    v,
                ) == stride_count(data@, p as int, l as int, v) by {
                assert(before[v as int] + stride_count(data@, i as int, l as int, v)
                    == stride_count(data@, p as int, l as int, v));
                if l >= n - i {
                    assert(stride_count(data@, i + l, l as int, v) == 0);
                    assert(stride_count(data@, n as int, l as int, v) == 0);
                }
            }
            if l >= n - i {
                assert(stride_len(data@, i + l, l as int) == 0);
                assert(stride_len(data@, n as int, l as int) == 0);
            }
        }
        if l >= n - i {
            i = n;
        } else {
            i = i + l;
        }
    }
    proof {
        lemma_describes_unique(u, unigram_of(data@, p as int, l as int), data@, p as int, l as int);
    }
    u
}

/// Counts the bytes of a whole stream.
pub fn stream_unigram(data: &[u8]) -> (u: Unigram)
    requires
        data@.len() <= MAX_TOTAL,
    ensures
        u.describes(data@, 0, 1),
        u == unigram_of(data@, 0, 1),
{
    residue_unigram(data, 0, 1)
}

/// A residue class has one unigram.
pub proof fn lemma_describes_unique(u1: Unigram, u2: Unigram, data: Seq<u8>, p: int, l: int)
    requires
        u1.describes(data, p, l),
        u2.describes(data, p, l),
    ensures
        u1 == u2,
{
    assert forall|i: int| 0 <= i < 256 implies u1.counts[i] == u2.counts[i] by {
        let v = i as u8;
        assert(u1.counts@[v as int] == stride_count(data, p, l, v));
        assert(u2.counts@[v as int] == stride_count(data, p, l, v));
    }
    assert(u1.counts =~= u2.counts);
}

/// The unigrams of all residue classes modulo `l` of `data`.
pub fn residue_unigrams(data: &[u8], l: usize) -> (us: Vec<Unigram>)
    requires
        data@.len() <= MAX_TOTAL,
    ensures
        us@.len() == l,
        forall|p: int| 0 <= p < l ==> (#[trigger] us@[p]).describes(data@, p, l as int),
        forall|p: int| 0 <= p < l ==> #[trigger] us@[p] == unigram_of(data@, p, l as int),
{
    let mut us: Vec<Unigram> = Vec::new();
    let mut p: usize = 0;
    while p < l
        invariant
            p <= l,
            data@.len() <= MAX_TOTAL,
            us@.len() == p,
            forall|q: int| 0 <= q < p ==> (#[trigger] us@[q]).describes(data@, q, l as int),
            forall|q: int| 0 <= q < p ==> #[trigger] us@[q] == unigram_of(data@, q, l as int),
        decreases l - p,
    {
        us.push(residue_unigram(data, p, l));
        p += 1;
    }
    us
}

} // verus!
