//! Key recovery: for each residue class of the ciphertext, the search for
//! the key position under which the residue's unigram, seen through the
//! substitution, is closest to the sample's.

use crate::cost::{
    compute_unigram_var, compute_var_scale, lemma_unigram_var_nonneg, lemma_var_scale_bound,
    unigram_var, var_scale,
};
use crate::freq::{residue_unigrams, stream_unigram, unigram_of, Unigram, MAX_TOTAL};
use crate::search::{first_min, is_first_min, lemma_first_min};
use crate::shortlist::{build_shortlist, hamming_cost, top_candidates, Candidate};
use crate::table::{gen_lvl1_sub, gen_lvl2_sub, gen_lvl3_sub, lvl1_table, lvl2_table, lvl3_table};
use crate::wide::product_exceeds;
use vstd::prelude::*;

verus! {

/// A plaintext sample with its unigram.
pub struct Sample {
    pub data: Vec<u8>,
    pub unigram: Unigram,
}

impl Sample {
    /// The unigram is that of the data.
    pub open spec fn wf(&self) -> bool {
        self.unigram.describes(self.data@, 0, 1)
    }

    /// The empty sample.
    pub fn new() -> (s: Sample)
        ensures
            s.wf(),
            s.data@.len() == 0,
    {
        let data: Vec<u8> = Vec::new();
        let unigram = stream_unigram(data.as_slice());
        Sample { data, unigram }
    }

    /// The sample of the given plaintext.
    pub fn from_data(data: Vec<u8>) -> (s: Sample)
        requires
            data@.len() <= MAX_TOTAL,
        ensures
            s.wf(),
            s.data@ == data@,
    {
        let unigram = stream_unigram(data.as_slice());
        Sample { data, unigram }
    }
}

/// What the search at one residue found: the key position `(x, a, m)` for
/// residue `p`, and the variance that it reaches as a whole number on the
/// scale of the two unigrams. A score equal to the scale, a variance of 1,
/// says that nothing was found.
#[derive(Clone, Copy)]
pub struct SBTask {
    pub x: u8,
    pub a: u8,
    pub m: u16,
    pub p: usize,
    pub score: u128,
}

/// The cost of the level-1 candidate `x`: the unigram variance through `i -> i ^ x`.
pub open spec fn lvl1_cost(du: Unigram, u: Unigram) -> spec_fn(int) -> int {
    |x: int| unigram_var(du, u, lvl1_table(x as u8))
}

/// The cost of the level-2 candidate `k = 256 x + a`: the unigram variance
/// through `i -> (i ^ x) + a`.
pub open spec fn lvl2_cost(du: Unigram, u: Unigram) -> spec_fn(int) -> int {
    |k: int| unigram_var(du, u, lvl2_table((k / 256) as u8, (k % 256) as u8))
}

/// Searches the 256 level-1 keys for the first one of least unigram
/// variance between the sample unigram `du` and the residue unigram `u`.
pub fn search_lvl1(du: &Unigram, u: &Unigram, p: usize) -> (res: SBTask)
    requires
        du.wf(),
        u.wf(),
    ensures
        res.p == p,
        res.a == 0,
        res.m == 0,
        (res.score as int, res.x as int) == first_min(lvl1_cost(*du, *u), 256, var_scale(*du, *u)),
        is_first_min(lvl1_cost(*du, *u), 256, var_scale(*du, *u), res.score as int, res.x as int),
{
    let scale = compute_var_scale(du, u);
    let mut res = SBTask { x: 0, a: 0, m: 0, p, score: scale };
    let mut sub: [usize; 256] = [0; 256];
    let mut k: usize = 0;
    while k < 256
        invariant
            k <= 256,
            du.wf(),
            u.wf(),
            res.p == p,
            res.a == 0,
            res.m == 0,
            (res.score as int, res.x as int) == first_min(
                lvl1_cost(*du, *u),
                k as int,
                var_scale(*du, *u),
            ),
        decreases 256 - k,
    {
        gen_lvl1_sub(k as u8, &mut sub);
        let s = compute_unigram_var(du, u, &sub);
        assert(s == lvl1_cost(*du, *u)(k as int));
        if s < res.score {
            res.score = s;
            res.x = k as u8;
        }
        k += 1;
    }
    proof {
        lemma_first_min(lvl1_cost(*du, *u), 256, var_scale(*du, *u));
    }
    res
}

/// Searches the 65536 level-2 keys, `x` outermost, for the first one of
/// least unigram variance between the sample unigram `du` and the residue
/// unigram `u`.
pub fn search_lvl2(du: &Unigram, u: &Unigram, p: usize) -> (res: SBTask)
    requires
        du.wf(),
        u.wf(),
    ensures
        res.p == p,
        res.m == 0,
        (res.score as int, 256 * res.x + res.a) == first_min(
            lvl2_cost(*du, *u),
            65536,
            var_scale(*du, *u),
        ),
        is_first_min(
            lvl2_cost(*du, *u),
            65536,
            var_scale(*du, *u),
            res.score as int,
            256 * res.x + res.a,
        ),
{
    let scale = compute_var_scale(du, u);
    let mut res = SBTask { x: 0, a: 0, m: 0, p, score: scale };
    let mut sub: [usize; 256] = [0; 256];
    let mut x: usize = 0;
    while x < 256
        invariant
            x <= 256,
            du.wf(),
            u.wf(),
            res.p == p,
            res.m == 0,
            (res.score as int, 256 * res.x + res.a) == first_min(
                lvl2_cost(*du, *u),
                256 * x,
                var_scale(*du, *u),
            ),
        decreases 256 - x,
    {
        let mut a: usize = 0;
        while a < 256
            invariant
                x < 256,
                a <= 256,
                du.wf(),
                u.wf(),
                res.p == p,
                res.m == 0,
                (res.score as int, 256 * res.x + res.a) == first_min(
                    lvl2_cost(*du, *u),
                    256 * x + a,
                    var_scale(*du, *u),
                ),
            decreases 256 - a,
        {
            gen_lvl2_sub(x as u8, a as u8, &mut sub);
            let s = compute_unigram_var(du, u, &sub);
            proof {
                let k = 256 * x + a;
                assert(k / 256 == x && k % 256 == a);
                assert(s == lvl2_cost(*du, *u)(k));
            }
            if s < res.score {
                res.score = s;
                res.x = x as u8;
                res.a = a as u8;
            }
            a += 1;
        }
        x += 1;
    }
    proof {
        lemma_first_min(lvl2_cost(*du, *u), 65536, var_scale(*du, *u));
    }
    res
}

/// The pruning of the level-3 search: how many level-2 keys are
/// shortlisted, and the Hamming-weight variance, as the fraction
/// `cutoff_num / cutoff_den`, above which a shortlisted key ends the search.
/// A denominator of 0 switches the cutoff off.
#[derive(Clone, Copy)]
pub struct Pruning {
    pub shortlist: usize,
    pub cutoff_num: u32,
    pub cutoff_den: u32,
}

impl Pruning {
    /// A shortlist of 40 and a cutoff of 1/100.
    pub fn standard() -> (pr: Pruning)
        ensures
            pr.shortlist == 40,
            pr.cutoff_num == 1,
            pr.cutoff_den == 100,
    {
        Pruning { shortlist: 40, cutoff_num: 1, cutoff_den: 100 }
    }
}

/// The mix indices that the level-3 search tries, `0..40320`.
pub open spec fn mix_count() -> int {
    40320
}

/// The cost of the level-3 candidate `m` under the level-2 key `(x, a)`:
/// the unigram variance through the full substitution.
pub open spec fn lvl3_cost(du: Unigram, u: Unigram, x: u8, a: u8) -> spec_fn(int) -> int {
    |m: int| unigram_var(du, u, lvl3_table(x, a, m as u16))
}

/// The shortlisted key `c` ends the search: its Hamming-weight variance is
/// above the best unigram variance found so far, or above the cutoff.
pub open spec fn is_pruned(c: Candidate, best: SBTask, scale: int, pr: Pruning) -> bool {
    c.cost > best.score || c.cost * pr.cutoff_den > pr.cutoff_num * scale
}

/// The best key after every mix index was tried under the shortlisted key
/// `c`: the first mix index of least unigram variance, if that is below
/// what `best` has; else `best`.
pub open spec fn improve(du: Unigram, u: Unigram, best: SBTask, c: Candidate) -> SBTask {
    let f = first_min(lvl3_cost(du, u, c.x, c.a), mix_count(), best.score as int);
    if f.0 < best.score {
        SBTask { x: c.x, a: c.a, m: f.1 as u16, p: best.p, score: f.0 as u128 }
    } else {
        best
    }
}

/// The best key after the shortlisted keys from `i` on were gone through
/// in order, starting from `best`, until one of them ends the search.
pub open spec fn refine(
    du: Unigram,
    u: Unigram,
    sl: Seq<Candidate>,
    i: int,
    best: SBTask,
    pr: Pruning,
) -> SBTask
    decreases sl.len() - i,
{
    if i < 0 || i >= sl.len() || is_pruned(sl[i], best, var_scale(du, u), pr) {
        best
    } else {
        refine(du, u, sl, i + 1, improve(du, u, best, sl[i]), pr)
    }
}

/// Where every search starts: no key, and a variance of 1.
pub open spec fn nothing_found(du: Unigram, u: Unigram, p: usize) -> SBTask {
    SBTask { x: 0, a: 0, m: 0, p, score: var_scale(du, u) as u128 }
}

/// `res` is sound: it carries residue `p` and a score that is at most the
/// scale, and if the score is below the scale it is the unigram variance
/// through the substitution of the key position that `res` names.
pub open spec fn is_sound(du: Unigram, u: Unigram, p: usize, res: SBTask) -> bool {
    &&& res.p == p
    &&& res.score <= var_scale(du, u)
    &&& res.score < var_scale(du, u) ==> res.m < 40320 && res.score == unigram_var(
        du,
        u,
        lvl3_table(res.x, res.a, res.m),
    )
}

/// Tries every mix index under the level-2 key `(x, a)`.
pub fn search_mixes(du: &Unigram, u: &Unigram, best: SBTask, c: &Candidate) -> (res: SBTask)
    requires
        du.wf(),
        u.wf(),
    ensures
        res == improve(*du, *u, best, *c),
{
    let mut res = best;
    let mut found = false;
    let mut sub: [usize; 256] = [0; 256];
    let ghost cost = lvl3_cost(*du, *u, c.x, c.a);
    let mut m: u16 = 0;
    while m < 40320
        invariant
            m <= 40320,
            du.wf(),
            u.wf(),
            cost == lvl3_cost(*du, *u, c.x, c.a),
            (res.score as int, if found { res.m as int } else { 0 }) == first_min(cost, m as int, best.score as int),
            found <==> res.score < best.score,
            !found ==> res == best,
            found ==> res.x == c.x && res.a == c.a && res.p == best.p,
        decreases 40320 - m,
    {
        gen_lvl3_sub(c.x, c.a, m, &mut sub);
        let s = compute_unigram_var(du, u, &sub);
        proof {
            assert(s == cost(m as int));
            lemma_first_min(cost, m as int, best.score as int);
        }
        if s < res.score {
            res.score = s;
            res.x = c.x;
            res.a = c.a;
            res.m = m;
            found = true;
        }
        m += 1;
    }
    res
}

/// Goes through the shortlist `sl` in order, trying every mix index under
/// each key, until a key ends the search.
pub fn refine_shortlist(du: &Unigram, u: &Unigram, p: usize, sl: &Vec<Candidate>, pr: &Pruning) -> (res: SBTask)
    requires
        du.wf(),
        u.wf(),
    ensures
        res == refine(*du, *u, sl@, 0, nothing_found(*du, *u, p), *pr),
{
    let scale = compute_var_scale(du, u);
    let mut res = SBTask { x: 0, a: 0, m: 0, p, score: scale };
    let mut i: usize = 0;
    while i < sl.len()
        invariant
            i <= sl@.len(),
            du.wf(),
            u.wf(),
            scale == var_scale(*du, *u),
            refine(*du, *u, sl@, i as int, res, *pr) == refine(
                *du,
                *u,
                sl@,
                0,
                nothing_found(*du, *u, p),
                *pr,
            ),
        decreases sl@.len() - i,
    {
        let c = sl[i];
        if c.cost > res.score || product_exceeds(c.cost, pr.cutoff_den, scale, pr.cutoff_num) {
            proof {
                assert(pr.cutoff_num * scale == scale * pr.cutoff_num) by (nonlinear_arith);
                assert(is_pruned(c, res, var_scale(*du, *u), *pr));
            }
            return res;
        }
        proof {
            assert(pr.cutoff_num * scale == scale * pr.cutoff_num) by (nonlinear_arith);
            assert(!is_pruned(c, res, var_scale(*du, *u), *pr));
        }
        res = search_mixes(du, u, res, &c);
        i += 1;
    }
    res
}

/// The level-3 search at one residue: the level-2 keys are shortlisted by
/// Hamming-weight variance, which no bit permutation changes, and every
/// mix index is tried under the shortlisted keys only.
pub fn search_lvl3(du: &Unigram, u: &Unigram, p: usize, pr: &Pruning) -> (res: SBTask)
    requires
        du.wf(),
        u.wf(),
    ensures
        res == refine(
            *du,
            *u,
            top_candidates(hamming_cost(*du, *u), 65536, pr.shortlist as int),
            0,
            nothing_found(*du, *u, p),
            *pr,
        ),
        is_sound(*du, *u, p, res),
{
    let sl = build_shortlist(du, u, pr.shortlist);
    let res = refine_shortlist(du, u, p, &sl, pr);
    proof {
        lemma_var_scale_bound(*du, *u);
        lemma_refine_sound(*du, *u, sl@, 0, nothing_found(*du, *u, p), *pr, p);
    }
    res
}

/// Improving a sound result gives a sound result.
pub proof fn lemma_improve_sound(du: Unigram, u: Unigram, best: SBTask, c: Candidate, p: usize)
    requires
        is_sound(du, u, p, best),
    ensures
        is_sound(du, u, p, improve(du, u, best, c)),
{
    let cost = lvl3_cost(du, u, c.x, c.a);
    lemma_first_min(cost, mix_count(), best.score as int);
    let f = first_min(cost, mix_count(), best.score as int);
    if f.0 < best.score {
        lemma_unigram_var_nonneg(du, u, lvl3_table(c.x, c.a, f.1 as u16), 256);
        assert(cost(f.1) == f.0);
    }
}

/// Going through a shortlist from a sound result gives a sound result.
pub proof fn lemma_refine_sound(
    du: Unigram,
    u: Unigram,
    sl: Seq<Candidate>,
    i: int,
    best: SBTask,
    pr: Pruning,
    p: usize,
)
    requires
        is_sound(du, u, p, best),
    ensures
        is_sound(du, u, p, refine(du, u, sl, i, best, pr)),
    decreases sl.len() - i,
{
    if i < 0 || i >= sl.len() || is_pruned(sl[i], best, var_scale(du, u), pr) {
    } else {
        lemma_improve_sound(du, u, best, sl[i], p);
        lemma_refine_sound(du, u, sl, i + 1, improve(du, u, best, sl[i]), pr, p);
    }
}

/// A variance as the fraction `num / scale`; a scale of 0, which an empty
/// stream gives, stands for a variance of 1.
#[derive(Clone, Copy)]
pub struct Variance {
    pub num: u128,
    pub scale: u128,
}

/// A recovered key with, for each residue, the variance that it reaches.
pub struct Recovery {
    pub x: Vec<u8>,
    pub a: Vec<u8>,
    pub m: Vec<u8>,
    pub variance: Vec<Variance>,
    pub aborted: bool,
}

/// The place among the first `n` results of the last one for residue `p`,
/// or -1 if there is none.
pub open spec fn last_for(tasks: Seq<SBTask>, n: int, p: int) -> int
    decreases n,
{
    if n <= 0 {
        -1
    } else if tasks[n - 1].p == p {
        n - 1
    } else {
        last_for(tasks, n - 1, p)
    }
}

/// Residue `p` of `rec` holds what the result `t` found.
pub open spec fn holds_task(rec: Recovery, p: int, t: SBTask) -> bool {
    &&& rec.x@[p] == t.x
    &&& rec.a@[p] == t.a
    &&& rec.m@[2 * p] == t.m / 256
    &&& rec.m@[2 * p + 1] == t.m % 256
    &&& rec.variance@[p].num == t.score
}

/// What residue `p` holds after the first `n` results in `tasks`: the last
/// result that names it, or no key and a variance of 1 if none does.
pub open spec fn settled_task(du: Unigram, us: Seq<Unigram>, tasks: Seq<SBTask>, n: int, p: int) -> SBTask {
    if last_for(tasks, n, p) >= 0 {
        tasks[last_for(tasks, n, p)]
    } else {
        nothing_found(du, us[p], p as usize)
    }
}

/// Residue `p` of `rec` is as the first `n` results in `tasks` leave it.
pub open spec fn is_settled(rec: Recovery, du: Unigram, us: Seq<Unigram>, tasks: Seq<SBTask>, n: int, p: int) -> bool {
    &&& rec.variance@[p].scale == var_scale(du, us[p])
    &&& holds_task(rec, p, settled_task(du, us, tasks, n, p))
}

/// `rec` is what the first `n` results in `tasks` leave for the residues
/// with the unigrams `us`: each residue holds the last result that names
/// it, or no key and a variance of 1 if none does; and the recovery counts
/// as aborted when a result among them found nothing.
pub open spec fn is_collected(rec: Recovery, du: Unigram, us: Seq<Unigram>, tasks: Seq<SBTask>, n: int) -> bool {
    &&& rec.x@.len() == us.len()
    &&& rec.a@.len() == us.len()
    &&& rec.m@.len() == 2 * us.len()
    &&& rec.variance@.len() == us.len()
    &&& forall|p: int| 0 <= p < us.len() ==> #[trigger] is_settled(rec, du, us, tasks, n, p)
    &&& rec.aborted <==> exists|i: int|
        0 <= i < n && (#[trigger] tasks[i]).score == var_scale(du, us[tasks[i].p as int])
}

/// Puts the results of the residue searches together, each at the residue
/// that it names, in whatever order they come.
pub fn collect(du: &Unigram, us: &Vec<Unigram>, tasks: &Vec<SBTask>) -> (rec: Recovery)
    requires
        du.wf(),
        2 * us@.len() <= usize::MAX,
        forall|p: int| 0 <= p < us@.len() ==> (#[trigger] us@[p]).wf(),
        forall|i: int| 0 <= i < tasks@.len() ==> (#[trigger] tasks@[i]).p < us@.len(),
    ensures
        is_collected(rec, *du, us@, tasks@, tasks@.len() as int),
{
    let l = us.len();
    let mut rec = Recovery {
        x: Vec::new(),
        a: Vec::new(),
        m: Vec::new(),
        variance: Vec::new(),
        aborted: false,
    };
    let mut p: usize = 0;
    while p < l
        invariant
            p <= l,
            l == us@.len(),
            du.wf(),
            forall|q: int| 0 <= q < us@.len() ==> (#[trigger] us@[q]).wf(),
            rec.x@.len() == p,
            rec.a@.len() == p,
            rec.m@.len() == 2 * p,
            rec.variance@.len() == p,
            !rec.aborted,
            forall|q: int| 0 <= q < p ==> #[trigger] is_settled(rec, *du, us@, tasks@, 0, q),
        decreases l - p,
    {
        let scale = compute_var_scale(du, &us[p]);
        let ghost before = rec;
        rec.x.push(0);
        rec.a.push(0);
        rec.m.push(0);
        rec.m.push(0);
        rec.variance.push(Variance { num: scale, scale });
        proof {
            assert forall|q: int| 0 <= q < p + 1 implies #[trigger] is_settled(
                rec,
                *du,
                us@,
                tasks@,
                0,
                q,
            ) by {
                if q < p {
                    assert(is_settled(before, *du, us@, tasks@, 0, q));
                }
            }
        }
        p += 1;
    }
    let mut i: usize = 0;
    while i < tasks.len()
        invariant
            i <= tasks@.len(),
            l == us@.len(),
            2 * l <= usize::MAX,
            du.wf(),
            forall|q: int| 0 <= q < us@.len() ==> (#[trigger] us@[q]).wf(),
            forall|k: int| 0 <= k < tasks@.len() ==> (#[trigger] tasks@[k]).p < us@.len(),
            is_collected(rec, *du, us@, tasks@, i as int),
        decreases tasks@.len() - i,
    {
        let t = &tasks[i];
        let p = t.p;
        let ghost before = rec;
        let scale = rec.variance[p].scale;
        if t.score == scale {
            rec.aborted = true;
        }
        rec.x[p] = t.x;
        rec.a[p] = t.a;
        rec.m[2 * p] = (t.m / 256) as u8;
        rec.m[2 * p + 1] = (t.m % 256) as u8;
        rec.variance[p] = Variance { num: t.score, scale };
        proof {
            assert forall|q: int| 0 <= q < us@.len() implies #[trigger] is_settled(
                rec,
                *du,
                us@,
                tasks@,
                i + 1,
                q,
            ) by {
                assert(is_settled(before, *du, us@, tasks@, i as int, q));
            }
            assert(before.aborted ==> rec.aborted);
            assert(is_settled(before, *du, us@, tasks@, i as int, p as int));
            if rec.aborted && !before.aborted {
                assert(tasks@[i as int].score == var_scale(*du, us@[tasks@[i as int].p as int]));
            }
            if !rec.aborted {
                assert forall|k: int| 0 <= k < i + 1 implies (#[trigger] tasks@[k]).score
                    != var_scale(*du, us@[tasks@[k].p as int]) by {
                    if k == i {
                        assert(is_settled(before, *du, us@, tasks@, i as int, p as int));
                    }
                }
            }
        }
        i += 1;
    }
    rec
}

/// What a break reports besides the key: the variance reached at each
/// residue, and whether the break was given up.
pub struct Verdict {
    pub variance: Vec<Variance>,
    pub aborted: bool,
}

/// When the results come in order of residue, each residue holds its own.
pub proof fn lemma_last_for_in_order(tasks: Seq<SBTask>, n: int, p: int)
    requires
        0 <= n <= tasks.len(),
        forall|i: int| 0 <= i < n ==> (#[trigger] tasks[i]).p == i,
    ensures
        last_for(tasks, n, p) == (if 0 <= p < n { p } else { -1 }),
    decreases n,
{
    if n > 0 {
        lemma_last_for_in_order(tasks, n - 1, p);
    }
}

/// `(x, v)` is what the level-1 search finds between `du` and `u`.
pub open spec fn is_lvl1_result(du: Unigram, u: Unigram, x: u8, v: Variance) -> bool {
    &&& v.scale == var_scale(du, u)
    &&& (v.num as int, x as int) == first_min(lvl1_cost(du, u), 256, var_scale(du, u))
}

/// `(x, a, v)` is what the level-2 search finds between `du` and `u`.
pub open spec fn is_lvl2_result(du: Unigram, u: Unigram, x: u8, a: u8, v: Variance) -> bool {
    &&& v.scale == var_scale(du, u)
    &&& (v.num as int, 256 * x + a) == first_min(lvl2_cost(du, u), 65536, var_scale(du, u))
}

/// `(x, a, m, v)`, with `m` as two bytes big-endian, is what the level-3
/// search finds between `du` and `u` under the pruning `pr`.
pub open spec fn is_lvl3_result(
    du: Unigram,
    u: Unigram,
    pr: Pruning,
    x: u8,
    a: u8,
    m_hi: u8,
    m_lo: u8,
    v: Variance,
) -> bool {
    let res = refine(
        du,
        u,
        top_candidates(hamming_cost(du, u), 65536, pr.shortlist as int),
        0,
        nothing_found(du, u, 0),
        pr,
    );
    &&& v.scale == var_scale(du, u)
    &&& v.num == res.score
    &&& x == res.x
    &&& a == res.a
    &&& m_hi == res.m / 256
    &&& m_lo == res.m % 256
}

/// `key` and `v` are the level-1 break of `data` for key length `l`: one
/// stream of `l` xor bytes, and at each residue what the level-1 search
/// finds between the sample unigram and the residue's unigram.
pub open spec fn is_lvl1_break(data: Seq<u8>, du: Unigram, l: int, key: Seq<Vec<u8>>, v: Verdict) -> bool {
    &&& !v.aborted
    &&& v.variance@.len() == l
    &&& key.len() == 1
    &&& key[0]@.len() == l
    &&& forall|p: int|
        0 <= p < l ==> is_lvl1_result(
            du,
            #[trigger] unigram_of(data, p, l),
            key[0]@[p],
            v.variance@[p],
        )
}

/// `key` and `v` are the level-2 break of `data` for key length `l`: a
/// stream of `l` xor bytes and one of `l` add bytes, and at each residue
/// what the level-2 search finds.
pub open spec fn is_lvl2_break(data: Seq<u8>, du: Unigram, l: int, key: Seq<Vec<u8>>, v: Verdict) -> bool {
    &&& !v.aborted
    &&& v.variance@.len() == l
    &&& key.len() == 2
    &&& key[0]@.len() == l
    &&& key[1]@.len() == l
    &&& forall|p: int|
        0 <= p < l ==> is_lvl2_result(
            du,
            #[trigger] unigram_of(data, p, l),
            key[0]@[p],
            key[1]@[p],
            v.variance@[p],
        )
}

/// `key` and `v` are the level-3 break of `data` for key length `l` under
/// the pruning `pr`: the xor, add and mix streams, at each residue what
/// the level-3 search finds, and the break counts as aborted exactly when
/// some residue is left with a variance of 1.
pub open spec fn is_lvl3_break(
    data: Seq<u8>,
    du: Unigram,
    l: int,
    pr: Pruning,
    key: Seq<Vec<u8>>,
    v: Verdict,
) -> bool {
    &&& v.variance@.len() == l
    &&& key.len() == 3
    &&& key[0]@.len() == l
    &&& key[1]@.len() == l
    &&& key[2]@.len() == 2 * l
    &&& forall|p: int|
        0 <= p < l ==> is_lvl3_result(
            du,
            #[trigger] unigram_of(data, p, l),
            pr,
            key[0]@[p],
            key[1]@[p],
            key[2]@[2 * p],
            key[2]@[2 * p + 1],
            v.variance@[p],
        )
    &&& v.aborted <==> exists|p: int|
        0 <= p < l && (#[trigger] v.variance@[p]).num == v.variance@[p].scale
}

/// Breaks a level-1 cipher of key length `l`: for each residue of `data`
/// the xor byte of least unigram variance against the sample, the first
/// such if several reach it, and 0 if none brings the variance below 1.
pub fn break_lvl1(data: &[u8], sample: &Sample, l: usize, key: &mut Vec<Vec<u8>>) -> (v: Verdict)
    requires
        sample.wf(),
        data@.len() <= MAX_TOTAL,
        2 * l <= usize::MAX,
    ensures
        is_lvl1_break(data@, sample.unigram, l as int, final(key)@, v),
{
    let du = &sample.unigram;
    let us = residue_unigrams(data, l);
    let mut tasks: Vec<SBTask> = Vec::new();
    let mut p: usize = 0;
    while p < l
        invariant
            p <= l,
            l == us@.len(),
            du.wf(),
            du == &sample.unigram,
            tasks@.len() == p,
            forall|q: int| 0 <= q < l ==> (#[trigger] us@[q]).describes(data@, q, l as int),
            forall|q: int| 0 <= q < p ==> (#[trigger] tasks@[q]).p == q,
            forall|q: int|
                0 <= q < p ==> (tasks@[q].score as int, (#[trigger] tasks@[q]).x as int) == first_min(
                    lvl1_cost(*du, us@[q]),
                    256,
                    var_scale(*du, us@[q]),
                ),
        decreases l - p,
    {
        let t = search_lvl1(du, &us[p], p);
        tasks.push(t);
        p += 1;
    }
    let rec = collect(du, &us, &tasks);
    proof {
        assert forall|p: int| 0 <= p < l implies is_lvl1_result(
            sample.unigram,
            #[trigger] unigram_of(data@, p, l as int),
            rec.x@[p],
            rec.variance@[p],
        ) by {
            assert(us@[p] == unigram_of(data@, p, l as int));
            lemma_last_for_in_order(tasks@, l as int, p);
            assert(is_settled(rec, *du, us@, tasks@, l as int, p));
            assert(tasks@[p].p == p);
        }
    }
    let Recovery { x, a: _, m: _, variance, aborted: _ } = rec;
    key.clear();
    key.push(x);
    Verdict { variance, aborted: false }
}

/// Breaks a level-2 cipher of key length `l`: for each residue of `data`
/// the xor and add bytes of least unigram variance against the sample, the
/// first such pair in the order of `x` and then `a`, and zeros if none
/// brings the variance below 1.
pub fn break_lvl2(data: &[u8], sample: &Sample, l: usize, key: &mut Vec<Vec<u8>>) -> (v: Verdict)
    requires
        sample.wf(),
        data@.len() <= MAX_TOTAL,
        2 * l <= usize::MAX,
    ensures
        is_lvl2_break(data@, sample.unigram, l as int, final(key)@, v),
{
    let du = &sample.unigram;
    let us = residue_unigrams(data, l);
    let mut tasks: Vec<SBTask> = Vec::new();
    let mut p: usize = 0;
    while p < l
        invariant
            p <= l,
            l == us@.len(),
            du.wf(),
            du == &sample.unigram,
            tasks@.len() == p,
            forall|q: int| 0 <= q < l ==> (#[trigger] us@[q]).describes(data@, q, l as int),
            forall|q: int| 0 <= q < p ==> (#[trigger] tasks@[q]).p == q,
            forall|q: int|
                0 <= q < p ==> (tasks@[q].score as int, 256 * (#[trigger] tasks@[q]).x + tasks@[q].a)
                    == first_min(lvl2_cost(*du, us@[q]), 65536, var_scale(*du, us@[q])),
        decreases l - p,
    {
        let t = search_lvl2(du, &us[p], p);
        tasks.push(t);
        p += 1;
    }
    let rec = collect(du, &us, &tasks);
    proof {
        assert forall|p: int| 0 <= p < l implies is_lvl2_result(
            sample.unigram,
            #[trigger] unigram_of(data@, p, l as int),
            rec.x@[p],
            rec.a@[p],
            rec.variance@[p],
        ) by {
            assert(us@[p] == unigram_of(data@, p, l as int));
            lemma_last_for_in_order(tasks@, l as int, p);
            assert(is_settled(rec, *du, us@, tasks@, l as int, p));
            assert(tasks@[p].p == p);
        }
    }
    let Recovery { x, a, m: _, variance, aborted: _ } = rec;
    key.clear();
    key.push(x);
    key.push(a);
    Verdict { variance, aborted: false }
}

/// Breaks a level-3 cipher of key length `l` under the pruning `pr`: for
/// each residue of `data` what the level-3 search finds. The break is given
/// up, and says so, when the search at some residue found nothing.
pub fn break_lvl3(data: &[u8], sample: &Sample, l: usize, key: &mut Vec<Vec<u8>>, pr: &Pruning) -> (v: Verdict)
    requires
        sample.wf(),
        data@.len() <= MAX_TOTAL,
        2 * l <= usize::MAX,
    ensures
        is_lvl3_break(data@, sample.unigram, l as int, *pr, final(key)@, v),
{
    let du = &sample.unigram;
    let us = residue_unigrams(data, l);
    let mut tasks: Vec<SBTask> = Vec::new();
    let mut p: usize = 0;
    while p < l
        invariant
            p <= l,
            l == us@.len(),
            du.wf(),
            du == &sample.unigram,
            tasks@.len() == p,
            forall|q: int| 0 <= q < l ==> (#[trigger] us@[q]).describes(data@, q, l as int),
            forall|q: int| 0 <= q < p ==> (#[trigger] tasks@[q]).p == q,
            forall|q: int|
                0 <= q < p ==> #[trigger] tasks@[q] == refine(
                    *du,
                    us@[q],
                    top_candidates(hamming_cost(*du, us@[q]), 65536, pr.shortlist as int),
                    0,
                    nothing_found(*du, us@[q], q as usize),
                    *pr,
                ),
        decreases l - p,
    {
        let t = search_lvl3(du, &us[p], p, pr);
        tasks.push(t);
        p += 1;
    }
    let rec = collect(du, &us, &tasks);
    proof {
        assert forall|p: int| 0 <= p < l implies is_lvl3_result(
            sample.unigram,
            #[trigger] unigram_of(data@, p, l as int),
            *pr,
            rec.x@[p],
            rec.a@[p],
            rec.m@[2 * p],
            rec.m@[2 * p + 1],
            rec.variance@[p],
        ) by {
            let u = unigram_of(data@, p, l as int);
            assert(us@[p] == u);
            lemma_last_for_in_order(tasks@, l as int, p);
            assert(is_settled(rec, *du, us@, tasks@, l as int, p));
            assert(tasks@[p].p == p);
            let sl = top_candidates(hamming_cost(*du, u), 65536, pr.shortlist as int);
            lemma_refine_residue(
                *du,
                u,
                sl,
                0,
                nothing_found(*du, u, p as usize),
                nothing_found(*du, u, 0),
                *pr,
            );
        }
        assert forall|p: int| 0 <= p < l implies ((#[trigger] rec.variance@[p]).num
            == rec.variance@[p].scale <==> tasks@[p].score == var_scale(
            *du,
            us@[tasks@[p].p as int],
        )) by {
            lemma_last_for_in_order(tasks@, l as int, p);
            assert(is_settled(rec, *du, us@, tasks@, l as int, p));
            assert(tasks@[p].p == p);
        }
        if rec.aborted {
            let i = choose|i: int|
                0 <= i < l && (#[trigger] tasks@[i]).score == var_scale(*du, us@[tasks@[i].p as int]);
            assert(rec.variance@[i].num == rec.variance@[i].scale);
        } else {
            assert forall|p: int| 0 <= p < l implies (#[trigger] rec.variance@[p]).num
                != rec.variance@[p].scale by {
                assert(tasks@[p].score != var_scale(*du, us@[tasks@[p].p as int]));
            }
        }
    }
    let ghost rv = rec.variance@;
    assert(rec.aborted <==> exists|p: int| 0 <= p < l && (#[trigger] rv[p]).num == rv[p].scale);
    let Recovery { x, a, m, variance, aborted } = rec;
    let v = Verdict { variance, aborted };
    assert(v.variance@ == rv);
    key.clear();
    key.push(x);
    key.push(a);
    key.push(m);
    v
}

/// Two level-2 breaks agree at every residue.
proof fn lemma_lvl2_same_at(
    data: Seq<u8>,
    du: Unigram,
    l: int,
    key1: Seq<Vec<u8>>,
    v1: Verdict,
    key2: Seq<Vec<u8>>,
    v2: Verdict,
    p: int,
)
    requires
        is_lvl2_break(data, du, l, key1, v1),
        is_lvl2_break(data, du, l, key2, v2),
        0 <= p < l,
    ensures
        key1[0]@[p] == key2[0]@[p],
        key1[1]@[p] == key2[1]@[p],
        v1.variance@[p] == v2.variance@[p],
{
    let u = unigram_of(data, p, l);
    assert(is_lvl2_result(du, u, key1[0]@[p], key1[1]@[p], v1.variance@[p]));
    assert(is_lvl2_result(du, u, key2[0]@[p], key2[1]@[p], v2.variance@[p]));
    let (x1, a1, x2, a2) = (key1[0]@[p], key1[1]@[p], key2[0]@[p], key2[1]@[p]);
    assert(256 * x1 + a1 == 256 * x2 + a2);
}

/// Two level-3 breaks agree at every residue.
proof fn lemma_lvl3_same_at(
    data: Seq<u8>,
    du: Unigram,
    l: int,
    pr: Pruning,
    key1: Seq<Vec<u8>>,
    v1: Verdict,
    key2: Seq<Vec<u8>>,
    v2: Verdict,
    p: int,
)
    requires
        is_lvl3_break(data, du, l, pr, key1, v1),
        is_lvl3_break(data, du, l, pr, key2, v2),
        0 <= p < l,
    ensures
        key1[0]@[p] == key2[0]@[p],
        key1[1]@[p] == key2[1]@[p],
        key1[2]@[2 * p] == key2[2]@[2 * p],
        key1[2]@[2 * p + 1] == key2[2]@[2 * p + 1],
        v1.variance@[p] == v2.variance@[p],
{
    let u = unigram_of(data, p, l);
    assert(is_lvl3_result(
        du,
        u,
        pr,
        key1[0]@[p],
        key1[1]@[p],
        key1[2]@[2 * p],
        key1[2]@[2 * p + 1],
        v1.variance@[p],
    ));
    assert(is_lvl3_result(
        du,
        u,
        pr,
        key2[0]@[p],
        key2[1]@[p],
        key2[2]@[2 * p],
        key2[2]@[2 * p + 1],
        v2.variance@[p],
    ));
}

/// Two level-1 breaks of the same ciphertext against the same sample give
/// the same key and the same variances.
pub proof fn lemma_lvl1_break_deterministic(
    data: Seq<u8>,
    du: Unigram,
    l: int,
    key1: Seq<Vec<u8>>,
    v1: Verdict,
    key2: Seq<Vec<u8>>,
    v2: Verdict,
)
    requires
        is_lvl1_break(data, du, l, key1, v1),
        is_lvl1_break(data, du, l, key2, v2),
    ensures
        key1[0]@ == key2[0]@,
        v1.variance@ == v2.variance@,
        v1.aborted == v2.aborted,
{
    assert forall|p: int| 0 <= p < l implies #[trigger] key1[0]@[p] == key2[0]@[p] by {
        let u = unigram_of(data, p, l);
        assert(is_lvl1_result(du, u, key1[0]@[p], v1.variance@[p]));
        assert(is_lvl1_result(du, u, key2[0]@[p], v2.variance@[p]));
    }
    assert forall|p: int| 0 <= p < l implies #[trigger] v1.variance@[p] == v2.variance@[p] by {
        let u = unigram_of(data, p, l);
        assert(is_lvl1_result(du, u, key1[0]@[p], v1.variance@[p]));
        assert(is_lvl1_result(du, u, key2[0]@[p], v2.variance@[p]));
    }
    assert(key1[0]@ =~= key2[0]@);
    assert(v1.variance@ =~= v2.variance@);
}

/// Two level-2 breaks of the same ciphertext against the same sample give
/// the same key and the same variances.
pub proof fn lemma_lvl2_break_deterministic(
    data: Seq<u8>,
    du: Unigram,
    l: int,
    key1: Seq<Vec<u8>>,
    v1: Verdict,
    key2: Seq<Vec<u8>>,
    v2: Verdict,
)
    requires
        is_lvl2_break(data, du, l, key1, v1),
        is_lvl2_break(data, du, l, key2, v2),
    ensures
        key1[0]@ == key2[0]@,
        key1[1]@ == key2[1]@,
        v1.variance@ == v2.variance@,
        v1.aborted == v2.aborted,
{
    assert forall|p: int| 0 <= p < l implies #[trigger] key1[0]@[p] == key2[0]@[p] by {
        lemma_lvl2_same_at(data, du, l, key1, v1, key2, v2, p);
    }
    assert forall|p: int| 0 <= p < l implies #[trigger] key1[1]@[p] == key2[1]@[p] by {
        lemma_lvl2_same_at(data, du, l, key1, v1, key2, v2, p);
    }
    assert forall|p: int| 0 <= p < l implies #[trigger] v1.variance@[p] == v2.variance@[p] by {
        lemma_lvl2_same_at(data, du, l, key1, v1, key2, v2, p);
    }
    assert(key1[0]@ =~= key2[0]@);
    assert(key1[1]@ =~= key2[1]@);
    assert(v1.variance@ =~= v2.variance@);
}

/// Two level-3 breaks of the same ciphertext against the same sample under
/// the same pruning give the same key, the same variances and the same
/// verdict on whether the break was given up.
pub proof fn lemma_lvl3_break_deterministic(
    data: Seq<u8>,
    du: Unigram,
    l: int,
    pr: Pruning,
    key1: Seq<Vec<u8>>,
    v1: Verdict,
    key2: Seq<Vec<u8>>,
    v2: Verdict,
)
    requires
        is_lvl3_break(data, du, l, pr, key1, v1),
        is_lvl3_break(data, du, l, pr, key2, v2),
    ensures
        key1[0]@ == key2[0]@,
        key1[1]@ == key2[1]@,
        key1[2]@ == key2[2]@,
        v1.variance@ == v2.variance@,
        v1.aborted == v2.aborted,
{
    assert forall|p: int| 0 <= p < l implies #[trigger] key1[0]@[p] == key2[0]@[p] by {
        lemma_lvl3_same_at(data, du, l, pr, key1, v1, key2, v2, p);
    }
    assert forall|p: int| 0 <= p < l implies #[trigger] key1[1]@[p] == key2[1]@[p] by {
        lemma_lvl3_same_at(data, du, l, pr, key1, v1, key2, v2, p);
    }
    assert forall|i: int| 0 <= i < 2 * l implies #[trigger] key1[2]@[i] == key2[2]@[i] by {
        let p = i / 2;
        assert(i == 2 * p || i == 2 * p + 1);
        lemma_lvl3_same_at(data, du, l, pr, key1, v1, key2, v2, p);
    }
    assert forall|p: int| 0 <= p < l implies #[trigger] v1.variance@[p] == v2.variance@[p] by {
        lemma_lvl3_same_at(data, du, l, pr, key1, v1, key2, v2, p);
    }
    assert(key1[0]@ =~= key2[0]@);
    assert(key1[1]@ =~= key2[1]@);
    assert(key1[2]@ =~= key2[2]@);
    assert(v1.variance@ =~= v2.variance@);
    if v1.aborted {
        let p = choose|p: int| 0 <= p < l && (#[trigger] v1.variance@[p]).num == v1.variance@[p].scale;
        assert(v2.variance@[p].num == v2.variance@[p].scale);
    }
    if v2.aborted {
        let p = choose|p: int| 0 <= p < l && (#[trigger] v2.variance@[p]).num == v2.variance@[p].scale;
        assert(v1.variance@[p].num == v1.variance@[p].scale);
    }
}

/// The residue that a search carries along has no part in what it finds.
pub proof fn lemma_improve_residue(du: Unigram, u: Unigram, b1: SBTask, b2: SBTask, c: Candidate)
    requires
        b1.x == b2.x,
        b1.a == b2.a,
        b1.m == b2.m,
        b1.score == b2.score,
    ensures
        improve(du, u, b1, c).x == improve(du, u, b2, c).x,
        improve(du, u, b1, c).a == improve(du, u, b2, c).a,
        improve(du, u, b1, c).m == improve(du, u, b2, c).m,
        improve(du, u, b1, c).score == improve(du, u, b2, c).score,
        improve(du, u, b1, c).p == b1.p,
        improve(du, u, b2, c).p == b2.p,
{
}

/// The residue that a search carries along has no part in what it finds.
pub proof fn lemma_refine_residue(
    du: Unigram,
    u: Unigram,
    sl: Seq<Candidate>,
    i: int,
    b1: SBTask,
    b2: SBTask,
    pr: Pruning,
)
    requires
        b1.x == b2.x,
        b1.a == b2.a,
        b1.m == b2.m,
        b1.score == b2.score,
    ensures
        refine(du, u, sl, i, b1, pr).x == refine(du, u, sl, i, b2, pr).x,
        refine(du, u, sl, i, b1, pr).a == refine(du, u, sl, i, b2, pr).a,
        refine(du, u, sl, i, b1, pr).m == refine(du, u, sl, i, b2, pr).m,
        refine(du, u, sl, i, b1, pr).score == refine(du, u, sl, i, b2, pr).score,
    decreases sl.len() - i,
{
    if i < 0 || i >= sl.len() || is_pruned(sl[i], b1, var_scale(du, u), pr) {
    } else {
        lemma_improve_residue(du, u, b1, b2, sl[i]);
        lemma_refine_residue(du, u, sl, i + 1, improve(du, u, b1, sl[i]), improve(du, u, b2, sl[i]), pr);
    }
}

} // verus!
