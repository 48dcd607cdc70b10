//! The shortlist of the level-3 search: the level-2 keys of least
//! Hamming-weight variance, in ascending order, ties in order of the keys.

use crate::cost::{hamming_var, hamming_var_against, own_weight_pairs, sorted_own_pairs};
use crate::sorting::sort_pairs;
use crate::freq::Unigram;
use crate::table::{gen_lvl2_sub, lvl2_table};
use vstd::prelude::*;

verus! {

/// A level-2 key `(x, a)` with its Hamming-weight variance.
#[derive(Clone, Copy)]
pub struct Candidate {
    pub x: u8,
    pub a: u8,
    pub cost: u128,
}

impl Candidate {
    /// The place of the key in the order of enumeration, `x` outermost.
    pub open spec fn index(&self) -> int {
        256 * self.x + self.a
    }
}

/// Candidate `c` ranks before the key of index `k` and cost `cost_k`: it
/// costs less, or the same and comes earlier in the enumeration.
pub open spec fn ranks_before(c: Candidate, cost_k: int, k: int) -> bool {
    c.cost < cost_k || (c.cost == cost_k && c.index() < k)
}

/// The key of index `k` stands in `sl`.
pub open spec fn listed(sl: Seq<Candidate>, k: int) -> bool {
    exists|i: int| 0 <= i < sl.len() && (#[trigger] sl[i]).index() == k
}

/// `sl` is the shortlist of at most `cap` among the keys `0..n`: it holds
/// keys of that range with their costs, in ascending rank, and every key of
/// the range that it leaves out ranks behind all that it holds, which are
/// then `cap` many.
pub open spec fn is_shortlist(sl: Seq<Candidate>, cost: spec_fn(int) -> int, n: int, cap: int) -> bool {
    &&& sl.len() <= cap
    &&& forall|i: int|
        0 <= i < sl.len() ==> 0 <= (#[trigger] sl[i]).index() < n && sl[i].cost == cost(
            sl[i].index(),
        )
    &&& forall|i: int, j: int|
        0 <= i < j < sl.len() ==> ranks_before(#[trigger] sl[i], (#[trigger] sl[j]).cost as int, sl[j].index())
    &&& forall|k: int|
        0 <= k < n && !listed(sl, k) ==> sl.len() == cap && forall|i: int|
            0 <= i < sl.len() ==> ranks_before(#[trigger] sl[i], cost(k), k)
}

/// `sl`, which is in ascending order of cost, with `c` put behind the last
/// candidate that costs no more.
pub open spec fn place(sl: Seq<Candidate>, c: Candidate) -> Seq<Candidate>
    decreases sl.len(),
{
    if sl.len() == 0 {
        seq![c]
    } else if sl.last().cost <= c.cost {
        sl.push(c)
    } else {
        place(sl.drop_last(), c).push(sl.last())
    }
}

/// The shortlist after candidate `c` was offered: placed while there is
/// room, placed in exchange for the last while it costs less than the
/// last, and left out otherwise.
pub open spec fn offer(sl: Seq<Candidate>, c: Candidate, cap: int) -> Seq<Candidate> {
    if cap <= 0 {
        sl
    } else if sl.len() < cap {
        place(sl, c)
    } else if c.cost < sl.last().cost {
        place(sl.drop_last(), c)
    } else {
        sl
    }
}

/// The candidate for the key of index `k`.
pub open spec fn candidate_at(cost: spec_fn(int) -> int, k: int) -> Candidate {
    Candidate { x: (k / 256) as u8, a: (k % 256) as u8, cost: cost(k) as u128 }
}

/// The shortlist of at most `cap` among the keys `0..n`, offered in order.
pub open spec fn top_candidates(cost: spec_fn(int) -> int, n: int, cap: int) -> Seq<Candidate>
    decreases n,
{
    if n <= 0 {
        Seq::empty()
    } else {
        offer(top_candidates(cost, n - 1, cap), candidate_at(cost, n - 1), cap)
    }
}

/// The Hamming-weight variance of the level-2 key of index `k = 256 x + a`.
pub open spec fn hamming_cost(du: Unigram, u: Unigram) -> spec_fn(int) -> int {
    |k: int| hamming_var(du, u, lvl2_table((k / 256) as u8, (k % 256) as u8))
}

/// Where `place` puts a candidate.
pub proof fn lemma_place_at(sl: Seq<Candidate>, c: Candidate, j: int)
    requires
        0 <= j <= sl.len(),
        forall|k: int| j <= k < sl.len() ==> (#[trigger] sl[k]).cost > c.cost,
        j > 0 ==> sl[j - 1].cost <= c.cost,
    ensures
        place(sl, c) == sl.subrange(0, j).push(c) + sl.subrange(j, sl.len() as int),
    decreases sl.len(),
{
    if sl.len() == 0 || j == sl.len() {
        assert(place(sl, c) =~= sl.subrange(0, j).push(c) + sl.subrange(j, sl.len() as int));
    } else {
        let t = sl.drop_last();
        assert(sl[sl.len() - 1].cost > c.cost);
        lemma_place_at(t, c, j);
        assert(t.subrange(0, j) =~= sl.subrange(0, j));
        assert(t.subrange(j, t.len() as int).push(sl.last()) =~= sl.subrange(j, sl.len() as int));
        assert(place(sl, c) =~= sl.subrange(0, j).push(c) + sl.subrange(j, sl.len() as int));
    }
}

/// The place where `c` goes in `sl`: behind the candidates that cost no more.
pub open spec fn place_index(sl: Seq<Candidate>, c: Candidate) -> int
    decreases sl.len(),
{
    if sl.len() == 0 || sl.last().cost <= c.cost {
        sl.len() as int
    } else {
        place_index(sl.drop_last(), c)
    }
}

/// `place` as a splice at `place_index`.
pub proof fn lemma_place_splice(sl: Seq<Candidate>, c: Candidate)
    ensures
        0 <= place_index(sl, c) <= sl.len(),
        forall|k: int| place_index(sl, c) <= k < sl.len() ==> (#[trigger] sl[k]).cost > c.cost,
        place_index(sl, c) > 0 ==> sl[place_index(sl, c) - 1].cost <= c.cost,
        place(sl, c) == sl.subrange(0, place_index(sl, c)).push(c) + sl.subrange(
            place_index(sl, c),
            sl.len() as int,
        ),
    decreases sl.len(),
{
    if sl.len() == 0 || sl.last().cost <= c.cost {
    } else {
        let t = sl.drop_last();
        lemma_place_splice(t, c);
        assert forall|k: int| place_index(sl, c) <= k < sl.len() implies (#[trigger] sl[k]).cost
            > c.cost by {
            if k < t.len() {
                assert(t[k].cost > c.cost);
            }
        }
        if place_index(sl, c) > 0 {
            assert(t[place_index(sl, c) - 1] == sl[place_index(sl, c) - 1]);
        }
    }
    lemma_place_at(sl, c, place_index(sl, c));
}

/// Placing a candidate that is newer than all of an ascending list gives
/// an ascending list of the old candidates and the new one.
pub proof fn lemma_place_ascending(sl: Seq<Candidate>, c: Candidate)
    requires
        forall|i: int, j: int|
            0 <= i < j < sl.len() ==> ranks_before(
                #[trigger] sl[i],
                (#[trigger] sl[j]).cost as int,
                sl[j].index(),
            ),
        forall|i: int| 0 <= i < sl.len() ==> (#[trigger] sl[i]).index() < c.index(),
    ensures
        place(sl, c).len() == sl.len() + 1,
        forall|i: int, j: int|
            0 <= i < j < place(sl, c).len() ==> ranks_before(
                #[trigger] place(sl, c)[i],
                (#[trigger] place(sl, c)[j]).cost as int,
                place(sl, c)[j].index(),
            ),
        forall|i: int| 0 <= i < sl.len() ==> place(sl, c).contains(#[trigger] sl[i]),
        place(sl, c).contains(c),
        forall|j: int|
            0 <= j < place(sl, c).len() ==> place(sl, c)[j] == c || sl.contains(
                #[trigger] place(sl, c)[j],
            ),
{
    lemma_place_splice(sl, c);
    let p = place_index(sl, c);
    let r = place(sl, c);
    assert(r.len() == sl.len() + 1);
    assert forall|j: int| 0 <= j < r.len() implies (if j < p {
        r[j] == sl[j]
    } else if j == p {
        r[j] == c
    } else {
        r[j] == sl[j - 1]
    }) by {}
    assert forall|i: int| 0 <= i < p implies (#[trigger] sl[i]).cost <= c.cost by {
        if i < p - 1 {
            assert(ranks_before(sl[i], sl[p - 1].cost as int, sl[p - 1].index()));
        }
    }
    assert forall|i: int, j: int| 0 <= i < j < r.len() implies ranks_before(
        #[trigger] r[i],
        (#[trigger] r[j]).cost as int,
        r[j].index(),
    ) by {
        if j < p {
            assert(ranks_before(sl[i], sl[j].cost as int, sl[j].index()));
        } else if j == p {
            assert(sl[i].cost <= c.cost);
            assert(sl[i].index() < c.index());
        } else if i < p {
            assert(ranks_before(sl[i], sl[j - 1].cost as int, sl[j - 1].index()));
        } else if i == p {
            assert(sl[j - 1].cost > c.cost);
        } else {
            assert(ranks_before(sl[i - 1], sl[j - 1].cost as int, sl[j - 1].index()));
        }
    }
    assert forall|i: int| 0 <= i < sl.len() implies r.contains(#[trigger] sl[i]) by {
        if i < p {
            assert(r[i] == sl[i]);
        } else {
            assert(r[i + 1] == sl[i]);
        }
    }
    assert(r[p] == c);
    assert forall|j: int| 0 <= j < r.len() implies r[j] == c || sl.contains(#[trigger] r[j]) by {
        if j < p {
            assert(sl[j] == r[j]);
        } else if j > p {
            assert(sl[j - 1] == r[j]);
        }
    }
}

/// Offering the next key to a shortlist gives the shortlist of one key more.
pub proof fn lemma_offer(sl: Seq<Candidate>, cost: spec_fn(int) -> int, n: int, cap: int)
    requires
        is_shortlist(sl, cost, n, cap),
        0 <= n < 65536,
        0 <= cap,
        0 <= cost(n) <= u128::MAX,
    ensures
        is_shortlist(offer(sl, candidate_at(cost, n), cap), cost, n + 1, cap),
{
    let c = candidate_at(cost, n);
    let r = offer(sl, c, cap);
    assert(c.index() == n && c.cost == cost(n));
    if cap == 0 {
        assert(sl.len() == 0);
    } else if sl.len() < cap {
        lemma_place_ascending(sl, c);
        assert forall|i: int| 0 <= i < r.len() implies 0 <= (#[trigger] r[i]).index() < n + 1
            && r[i].cost == cost(r[i].index()) by {
            if r[i] != c {
                assert(sl.contains(r[i]));
                let k = choose|k: int| 0 <= k < sl.len() && sl[k] == r[i];
            }
        }
        assert forall|k: int| 0 <= k < n + 1 implies listed(r, k) by {
            if k == n {
                let j = choose|j: int| 0 <= j < r.len() && r[j] == c;
                assert(r[j].index() == k);
            } else {
                assert(listed(sl, k));
                let i = choose|i: int| 0 <= i < sl.len() && (#[trigger] sl[i]).index() == k;
                assert(r.contains(sl[i]));
                let j = choose|j: int| 0 <= j < r.len() && r[j] == sl[i];
                assert(r[j].index() == k);
            }
        }
    } else if c.cost < sl.last().cost {
        let t = sl.drop_last();
        let last = sl.last();
        assert forall|i: int| 0 <= i < t.len() implies t[i] == sl[i] by {}
        lemma_place_ascending(t, c);
        assert forall|i: int| 0 <= i < r.len() implies 0 <= (#[trigger] r[i]).index() < n + 1
            && r[i].cost == cost(r[i].index()) by {
            if r[i] != c {
                assert(t.contains(r[i]));
                let k = choose|k: int| 0 <= k < t.len() && t[k] == r[i];
                assert(sl[k] == r[i]);
            }
        }
        assert forall|k: int| 0 <= k < n + 1 && !listed(r, k) implies r.len() == cap && forall|
            i: int,
        |
            0 <= i < r.len() ==> ranks_before(#[trigger] r[i], cost(k), k) by {
            if k == n {
                let j = choose|j: int| 0 <= j < r.len() && r[j] == c;
                assert(r[j].index() == k);
            }
            assert(k < n);
            assert forall|i: int| 0 <= i < r.len() implies ranks_before(
                #[trigger] r[i],
                cost(k),
                k,
            ) by {
                if listed(sl, k) {
                    let q = choose|q: int| 0 <= q < sl.len() && (#[trigger] sl[q]).index() == k;
                    if q < t.len() {
                        assert(r.contains(t[q]));
                        let j = choose|j: int| 0 <= j < r.len() && r[j] == t[q];
                        assert(r[j].index() == k);
                        assert(false);
                    }
                    assert(sl[q] == last);
                    assert(cost(k) == last.cost);
                    if r[i] != c {
                        assert(t.contains(r[i]));
                        let w = choose|w: int| 0 <= w < t.len() && t[w] == r[i];
                        assert(ranks_before(sl[w], sl[q].cost as int, sl[q].index()));
                    }
                } else {
                    assert(ranks_before(sl[sl.len() - 1], cost(k), k));
                    if r[i] != c {
                        assert(t.contains(r[i]));
                        let w = choose|w: int| 0 <= w < t.len() && t[w] == r[i];
                        assert(ranks_before(sl[w], cost(k), k));
                    }
                }
            }
        }
    } else {
        assert forall|k: int| 0 <= k < n + 1 && !listed(sl, k) implies sl.len() == cap && forall|
            i: int,
        |
            0 <= i < sl.len() ==> ranks_before(#[trigger] sl[i], cost(k), k) by {
            if k == n {
                assert forall|i: int| 0 <= i < sl.len() implies ranks_before(
                    #[trigger] sl[i],
                    cost(k),
                    k,
                ) by {
                    if i < sl.len() - 1 {
                        assert(ranks_before(sl[i], sl[sl.len() - 1].cost as int, sl[sl.len() - 1].index()));
                    }
                }
            }
        }
    }
}

/// The shortlist that `top_candidates` builds is the shortlist: the keys
/// of least cost, in ascending order, ties in order of enumeration.
pub proof fn lemma_top_candidates(cost: spec_fn(int) -> int, n: int, cap: int)
    requires
        0 <= n <= 65536,
        0 <= cap,
        forall|k: int| 0 <= k < n ==> 0 <= #[trigger] cost(k) <= u128::MAX,
    ensures
        is_shortlist(top_candidates(cost, n, cap), cost, n, cap),
    decreases n,
{
    if n > 0 {
        lemma_top_candidates(cost, n - 1, cap);
        lemma_offer(top_candidates(cost, n - 1, cap), cost, n - 1, cap);
    }
}

/// Offers `c` to the shortlist `list` of at most `cap` candidates.
pub fn offer_candidate(list: &mut Vec<Candidate>, c: Candidate, cap: usize)
    ensures
        final(list)@ == offer(old(list)@, c, cap as int),
{
    if cap == 0 {
        return ;
    }
    if list.len() >= cap {
        if c.cost < list[list.len() - 1].cost {
            list.pop();
            assert(list@ =~= old(list)@.drop_last());
        } else {
            return ;
        }
    }
    let ghost base = list@;
    let mut j: usize = list.len();
    while j > 0 && list[j - 1].cost > c.cost
        invariant
            j <= list@.len(),
            list@ == base,
            forall|k: int| j <= k < base.len() ==> (#[trigger] base[k]).cost > c.cost,
        decreases j,
    {
        j -= 1;
    }
    proof {
        lemma_place_at(base, c, j as int);
        assert(base.insert(j as int, c) =~= base.subrange(0, j as int).push(c) + base.subrange(
            j as int,
            base.len() as int,
        ));
    }
    list.insert(j, c);
}

/// The shortlist of at most `cap` level-2 keys of least Hamming-weight
/// variance between the sample unigram `du` and the residue unigram `u`.
pub fn build_shortlist(du: &Unigram, u: &Unigram, cap: usize) -> (list: Vec<Candidate>)
    requires
        du.wf(),
        u.wf(),
    ensures
        list@ == top_candidates(hamming_cost(*du, *u), 65536, cap as int),
        is_shortlist(list@, hamming_cost(*du, *u), 65536, cap as int),
{
    let mut list: Vec<Candidate> = Vec::new();
    let mut sub: [usize; 256] = [0; 256];
    let own = sorted_own_pairs(u);
    let ghost cost = hamming_cost(*du, *u);
    let mut x: usize = 0;
    while x < 256
        invariant
            x <= 256,
            du.wf(),
            u.wf(),
            own@ == sort_pairs(own_weight_pairs(*u)),
            cost == hamming_cost(*du, *u),
            list@ == top_candidates(cost, 256 * x, cap as int),
            forall|k: int| 0 <= k < 256 * x ==> 0 <= #[trigger] cost(k) <= u128::MAX,
        decreases 256 - x,
    {
        let mut a: usize = 0;
        while a < 256
            invariant
                x < 256,
                a <= 256,
                du.wf(),
                u.wf(),
                own@ == sort_pairs(own_weight_pairs(*u)),
                cost == hamming_cost(*du, *u),
                list@ == top_candidates(cost, 256 * x + a, cap as int),
                forall|k: int| 0 <= k < 256 * x + a ==> 0 <= #[trigger] cost(k) <= u128::MAX,
            decreases 256 - a,
        {
            gen_lvl2_sub(x as u8, a as u8, &mut sub);
            let h = hamming_var_against(du, u, &sub, &own);
            let c = Candidate { x: x as u8, a: a as u8, cost: h };
            proof {
                let k = 256 * x + a;
                assert(k / 256 == x && k % 256 == a);
                assert(h == cost(k));
                assert(c == candidate_at(cost, k));
            }
            offer_candidate(&mut list, c, cap);
            a += 1;
        }
        x += 1;
    }
    proof {
        lemma_top_candidates(cost, 65536, cap as int);
    }
    list
}

} // verus!
