//! Sorting of (weight, count) pairs, ascending by weight and then by count.

use vstd::prelude::*;

verus! {

/// `a` does not come after `b`: a lower weight, or the same weight and no higher count.
pub open spec fn pair_le(a: (u8, u64), b: (u8, u64)) -> bool {
    a.0 < b.0 || (a.0 == b.0 && a.1 <= b.1)
}

/// No pair of `s` comes before an earlier one.
pub open spec fn is_sorted(s: Seq<(u8, u64)>) -> bool {
    forall|i: int, j: int| 0 <= i < j < s.len() ==> pair_le(#[trigger] s[i], #[trigger] s[j])
}

/// `s`, which is sorted, with `e` put behind the last pair that does not come after it.
pub open spec fn insert_pair(s: Seq<(u8, u64)>, e: (u8, u64)) -> Seq<(u8, u64)>
    decreases s.len(),
{
    if s.len() == 0 {
        seq![e]
    } else if pair_le(s.last(), e) {
        s.push(e)
    } else {
        insert_pair(s.drop_last(), e).push(s.last())
    }
}

/// The pairs of `s` in ascending order.
pub open spec fn sort_pairs(s: Seq<(u8, u64)>) -> Seq<(u8, u64)>
    decreases s.len(),
{
    if s.len() == 0 {
        s
    } else {
        insert_pair(sort_pairs(s.drop_last()), s.last())
    }
}

/// Inserting keeps the pairs, adds the new one, and keeps the order.
pub proof fn lemma_insert_pair(s: Seq<(u8, u64)>, e: (u8, u64))
    requires
        is_sorted(s),
    ensures
        is_sorted(insert_pair(s, e)),
        insert_pair(s, e).len() == s.len() + 1,
        insert_pair(s, e).to_multiset() == s.to_multiset().insert(e),
    decreases s.len(),
{
    broadcast use vstd::seq_lib::group_to_multiset_ensures;

    if s.len() == 0 {
        assert(s =~= Seq::empty());
        assert(seq![e] =~= Seq::<(u8, u64)>::empty().push(e));
    } else if pair_le(s.last(), e) {
        let r = s.push(e);
        assert forall|i: int, j: int| 0 <= i < j < r.len() implies pair_le(
            #[trigger] r[i],
            #[trigger] r[j],
        ) by {
            if j == s.len() {
                if i < s.len() - 1 {
                    assert(pair_le(s[i], s[s.len() - 1]));
                }
            }
        }
    } else {
        let t = s.drop_last();
        let l = s.last();
        lemma_insert_pair(t, e);
        let u = insert_pair(t, e);
        let r = u.push(l);
        assert(s =~= t.push(l));
        assert(pair_le(e, l));
        assert forall|i: int, j: int| 0 <= i < j < r.len() implies pair_le(
            #[trigger] r[i],
            #[trigger] r[j],
        ) by {
            if j == u.len() {
                assert(u.to_multiset().count(u[i]) > 0);
                if u[i] == e {
                } else {
                    assert(t.to_multiset().count(u[i]) > 0);
                    assert(t.contains(u[i]));
                    let k = choose|k: int| 0 <= k < t.len() && t[k] == u[i];
                    assert(pair_le(s[k], s[s.len() - 1]));
                }
            }
        }
        assert(r.to_multiset() =~= s.to_multiset().insert(e));
    }
}

/// Sorting keeps the pairs and puts them in ascending order.
pub proof fn lemma_sort_pairs(s: Seq<(u8, u64)>)
    ensures
        is_sorted(sort_pairs(s)),
        sort_pairs(s).len() == s.len(),
        sort_pairs(s).to_multiset() == s.to_multiset(),
    decreases s.len(),
{
    broadcast use vstd::seq_lib::group_to_multiset_ensures;

    if s.len() > 0 {
        lemma_sort_pairs(s.drop_last());
        lemma_insert_pair(sort_pairs(s.drop_last()), s.last());
        assert(s =~= s.drop_last().push(s.last()));
    }
}

/// There is one way to put given pairs in ascending order: two sorted
/// sequences of the same pairs are the same sequence.
pub proof fn lemma_sorted_unique(s: Seq<(u8, u64)>, t: Seq<(u8, u64)>)
    requires
        is_sorted(s),
        is_sorted(t),
        s.to_multiset() == t.to_multiset(),
    ensures
        s == t,
    decreases s.len(),
{
    broadcast use vstd::seq_lib::group_to_multiset_ensures;

    assert(s.len() == t.len()) by {
        assert(s.to_multiset().len() == s.len());
        assert(t.to_multiset().len() == t.len());
    }
    if s.len() == 0 {
        assert(s =~= t);
    } else {
        let a = s.last();
        let b = t.last();
        let s0 = s.drop_last();
        let t0 = t.drop_last();
        assert(s =~= s0.push(a));
        assert(t =~= t0.push(b));
        assert(pair_le(a, b)) by {
            assert(s.to_multiset().count(a) > 0) by {
                assert(s.contains(a));
            }
            assert(t.contains(a));
            let k = choose|k: int| 0 <= k < t.len() && t[k] == a;
            if k < t.len() - 1 {
                assert(pair_le(t[k], t[t.len() - 1]));
            }
        }
        assert(pair_le(b, a)) by {
            assert(t.to_multiset().count(b) > 0) by {
                assert(t.contains(b));
            }
            assert(s.contains(b));
            let k = choose|k: int| 0 <= k < s.len() && s[k] == b;
            if k < s.len() - 1 {
                assert(pair_le(s[k], s[s.len() - 1]));
            }
        }
        assert(a == b);
        assert(s0.to_multiset() =~= t0.to_multiset()) by {
            assert(s.to_multiset() == s0.to_multiset().insert(a));
            assert(t.to_multiset() == t0.to_multiset().insert(a));
            assert forall|v: (u8, u64)| s0.to_multiset().count(v) == t0.to_multiset().count(v) by {
                assert(s0.to_multiset().insert(a).count(v) == t0.to_multiset().insert(a).count(v));
            }
        }
        assert(is_sorted(s0)) by {
            assert forall|i: int, j: int| 0 <= i < j < s0.len() implies pair_le(
                #[trigger] s0[i],
                #[trigger] s0[j],
            ) by {
                assert(pair_le(s[i], s[j]));
            }
        }
        assert(is_sorted(t0)) by {
            assert forall|i: int, j: int| 0 <= i < j < t0.len() implies pair_le(
                #[trigger] t0[i],
                #[trigger] t0[j],
            ) by {
                assert(pair_le(t[i], t[j]));
            }
        }
        lemma_sorted_unique(s0, t0);
    }
}

/// Sorting gives the one ascending arrangement: any sorted sequence of the
/// same pairs is the sorted sequence.
pub proof fn lemma_sort_pairs_unique(s: Seq<(u8, u64)>, t: Seq<(u8, u64)>)
    requires
        is_sorted(t),
        t.to_multiset() == s.to_multiset(),
    ensures
        t == sort_pairs(s),
{
    lemma_sort_pairs(s);
    lemma_sorted_unique(t, sort_pairs(s));
}

/// Where in a sorted sequence `insert_pair` puts a pair: behind the pairs
/// that do not come after it and before those that do.
pub proof fn lemma_insert_pair_at(s: Seq<(u8, u64)>, e: (u8, u64), j: int)
    requires
        0 <= j <= s.len(),
        forall|k: int| j <= k < s.len() ==> !pair_le(#[trigger] s[k], e),
        j > 0 ==> pair_le(s[j - 1], e),
    ensures
        insert_pair(s, e) == s.subrange(0, j).push(e) + s.subrange(j, s.len() as int),
    decreases s.len(),
{
    if s.len() == 0 {
        assert(insert_pair(s, e) =~= s.subrange(0, j).push(e) + s.subrange(j, s.len() as int));
    } else if j == s.len() {
        assert(insert_pair(s, e) =~= s.subrange(0, j).push(e) + s.subrange(j, s.len() as int));
    } else {
        let t = s.drop_last();
        assert(!pair_le(s[s.len() - 1], e));
        lemma_insert_pair_at(t, e, j);
        assert(insert_pair(s, e) =~= s.subrange(0, j).push(e) + s.subrange(j, s.len() as int)) by {
            assert(t.subrange(0, j) =~= s.subrange(0, j));
            assert(t.subrange(j, t.len() as int).push(s.last()) =~= s.subrange(j, s.len() as int));
        }
    }
}

/// Sorts `v` in place, ascending by weight and then by count.
pub fn sort_pairs_in_place(v: &mut Vec<(u8, u64)>)
    ensures
        final(v)@ == sort_pairs(old(v)@),
        is_sorted(final(v)@),
        final(v)@.len() == old(v)@.len(),
        final(v)@.to_multiset() == old(v)@.to_multiset(),
{
    let n = v.len();
    let mut i: usize = 0;
    proof {
        assert(v@.subrange(0, 0) =~= Seq::empty());
        lemma_sort_pairs(old(v)@);
    }
    while i < n
        invariant
            i <= n,
            n == v@.len(),
            n == old(v)@.len(),
            v@.subrange(0, i as int) == sort_pairs(old(v)@.subrange(0, i as int)),
            v@.subrange(i as int, n as int) == old(v)@.subrange(i as int, n as int),
        decreases n - i,
    {
        let e = v[i];
        let ghost sorted = v@.subrange(0, i as int);
        let ghost rest = v@.subrange(i as int + 1, n as int);
        proof {
            assert(e == old(v)@[i as int]) by {
                assert(v@.subrange(i as int, n as int)[0] == old(v)@.subrange(i as int, n as int)[0]);
            }
            lemma_sort_pairs(old(v)@.subrange(0, i as int));
        }
        let mut j: usize = i;
        while j > 0 && !(v[j - 1].0 < e.0 || (v[j - 1].0 == e.0 && v[j - 1].1 <= e.1))
            invariant
                j <= i < n,
                n == v@.len(),
                sorted.len() == i,
                is_sorted(sorted),
                v@.subrange(0, j as int) == sorted.subrange(0, j as int),
                v@.subrange(j as int + 1, i as int + 1) == sorted.subrange(j as int, i as int),
                v@.subrange(i as int + 1, n as int) == rest,
                forall|k: int| j <= k < i ==> !pair_le(#[trigger] sorted[k], e),
            decreases j,
        {
            let prev = v[j - 1];
            proof {
                assert(prev == sorted[j - 1]) by {
                    assert(v@.subrange(0, j as int)[j - 1] == sorted.subrange(0, j as int)[j - 1]);
                }
            }
            let ghost before = v@;
            v[j] = prev;
            proof {
                assert(v@.subrange(0, j as int - 1) =~= sorted.subrange(0, j as int - 1)) by {
                    assert forall|k: int| 0 <= k < j - 1 implies v@[k] == sorted[k] by {
                        assert(before.subrange(0, j as int)[k] == sorted.subrange(0, j as int)[k]);
                    }
                }
                assert(v@.subrange(j as int, i as int + 1) =~= sorted.subrange(
                    j as int - 1,
                    i as int,
                )) by {
                    assert forall|k: int| j <= k < i + 1 implies v@[k] == sorted[k - 1] by {
                        if k > j {
                            assert(before.subrange(j as int + 1, i as int + 1)[k - j - 1]
                                == sorted.subrange(j as int, i as int)[k - j - 1]);
                        }
                    }
                }
                assert(v@.subrange(i as int + 1, n as int) =~= rest) by {
                    assert forall|k: int| i + 1 <= k < n implies v@[k] == rest[k - i - 1] by {
                        assert(before.subrange(i as int + 1, n as int)[k - i - 1] == rest[k - i
                            - 1]);
                    }
                }
            }
            j -= 1;
        }
        let ghost before = v@;
        v[j] = e;
        proof {
            if j > 0 {
                assert(before.subrange(0, j as int)[j - 1] == sorted.subrange(0, j as int)[j - 1]);
                assert(pair_le(sorted[j - 1], e));
            }
            lemma_insert_pair_at(sorted, e, j as int);
            let target = sorted.subrange(0, j as int).push(e) + sorted.subrange(j as int, i as int);
            assert(v@.subrange(0, i as int + 1) =~= target) by {
                assert forall|k: int| 0 <= k < i + 1 implies v@[k] == target[k] by {
                    if k < j {
                        assert(before.subrange(0, j as int)[k] == sorted.subrange(0, j as int)[k]);
                    } else if k > j {
                        assert(before.subrange(j as int + 1, i as int + 1)[k - j - 1]
                            == sorted.subrange(j as int, i as int)[k - j - 1]);
                    }
                }
            }
            assert(old(v)@.subrange(0, i as int + 1).drop_last() =~= old(v)@.subrange(0, i as int));
            assert(old(v)@.subrange(0, i as int + 1).last() == e);
            assert(v@.subrange(i as int + 1, n as int) =~= old(v)@.subrange(i as int + 1, n as int))
                by {
                assert forall|k: int| i + 1 <= k < n implies v@[k] == old(v)@[k] by {
                    assert(before.subrange(i as int + 1, n as int)[k - i - 1] == rest[k - i - 1]);
                    assert(rest[k - i - 1] == old(v)@.subrange(i as int, n as int)[k - i]);
                }
            }
        }
        i += 1;
    }
    proof {
        assert(v@.subrange(0, n as int) =~= v@);
        assert(old(v)@.subrange(0, n as int) =~= old(v)@);
    }
}

} // verus!
