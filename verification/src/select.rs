//! Scoring and selection: the spec-level description of what the queries
//! return, and the executable sorting and filtering they share.
//!
//! A query result is a sequence of `(score, payload)` pairs. `scored` maps
//! every stored entry to its pair; `sort_by_score` orders pairs ascending by
//! score, keeping equally-scored pairs in their original (tree traversal)
//! order; `keep_le` drops every pair whose score exceeds the radius. The
//! public query contracts are stated by composing these three functions.

use vstd::prelude::*;
use vstd::seq_lib::group_to_multiset_ensures;
use vstd::seq_lib::lemma_multiset_commutative;
use crate::distance::Distance;

verus! {

/// Every stored entry mapped to its `(score, payload)` pair. The cast is
/// meaningful only when every score lies in `[0, u64::MAX]`; the query
/// contracts guard uses of `scored` with `all_scores_ok`.
pub open spec fn scored<T, D: Distance>(
    metric: D,
    p: Seq<i64>,
    v: Seq<(Seq<i64>, T)>,
) -> Seq<(u64, T)> {
    v.map_values(|e: (Seq<i64>, T)| ((metric.spec_dist(p, e.0)) as u64, e.1))
}

/// Every stored entry's distance from `p` is representable as a score.
pub open spec fn all_scores_ok<T, D: Distance>(
    metric: D,
    p: Seq<i64>,
    v: Seq<(Seq<i64>, T)>,
) -> bool {
    forall|i: int|
        0 <= i < v.len() ==> 0 <= metric.spec_dist(p, (#[trigger] v[i]).0) <= u64::MAX
}

/// Ascending by score.
pub open spec fn sorted_by_score<T>(s: Seq<(u64, T)>) -> bool {
    forall|i: int, j: int| 0 <= i < j < s.len() ==> (#[trigger] s[i]).0 <= (#[trigger] s[j]).0
}

/// Inserts `x` after every pair whose score is at most `x`'s, so equal
/// scores keep their original order.
pub open spec fn insert_by_score<T>(s: Seq<(u64, T)>, x: (u64, T)) -> Seq<(u64, T)>
    decreases s.len(),
{
    if s.len() == 0 {
        seq![x]
    } else if x.0 < s[0].0 {
        seq![x] + s
    } else {
        seq![s[0]] + insert_by_score(s.drop_first(), x)
    }
}

/// Stable insertion sort, ascending by score.
pub open spec fn sort_by_score<T>(s: Seq<(u64, T)>) -> Seq<(u64, T)>
    decreases s.len(),
{
    if s.len() == 0 {
        Seq::empty()
    } else {
        insert_by_score(sort_by_score(s.drop_last()), s.last())
    }
}

/// The pairs whose score is at most `radius`, in their original order.
pub open spec fn keep_le<T>(s: Seq<(u64, T)>, radius: u64) -> Seq<(u64, T)>
    decreases s.len(),
{
    if s.len() == 0 {
        Seq::empty()
    } else if s.last().0 <= radius {
        keep_le(s.drop_last(), radius).push(s.last())
    } else {
        keep_le(s.drop_last(), radius)
    }
}

/// What a k-nearest query returns: all entries scored, sorted ascending,
/// and cut down to the first `k` (or all of them, when fewer are stored).
pub open spec fn select_nearest<T, D: Distance>(
    metric: D,
    p: Seq<i64>,
    v: Seq<(Seq<i64>, T)>,
    k: int,
) -> Seq<(u64, T)> {
    let full = sort_by_score(scored(metric, p, v));
    full.take(if k <= full.len() { k } else { full.len() as int })
}

/// What a radius query returns: the entries within `radius`, sorted
/// ascending by score.
pub open spec fn select_within<T, D: Distance>(
    metric: D,
    p: Seq<i64>,
    v: Seq<(Seq<i64>, T)>,
    radius: u64,
) -> Seq<(u64, T)> {
    sort_by_score(keep_le(scored(metric, p, v), radius))
}

/// A sequence whose multiset grew by one element holds that element or an
/// element of the original, and nothing else.
pub proof fn lemma_ms_insert_elems<A>(s1: Seq<A>, s2: Seq<A>, x: A)
    requires
        s2.to_multiset() == s1.to_multiset().insert(x),
    ensures
        forall|i: int| 0 <= i < s2.len() ==> s2[i] == x || s1.contains(#[trigger] s2[i]),
{
    broadcast use group_to_multiset_ensures;

    assert forall|i: int| 0 <= i < s2.len() implies s2[i] == x || s1.contains(#[trigger] s2[i]) by {
        if s2[i] != x {
            assert(s2.contains(s2[i]));
            assert(s2.to_multiset().count(s2[i]) > 0);
            assert(s1.to_multiset().count(s2[i]) == s2.to_multiset().count(s2[i]));
        }
    }
}

pub proof fn lemma_insert_by_score_props<T>(s: Seq<(u64, T)>, x: (u64, T))
    requires
        sorted_by_score(s),
    ensures
        sorted_by_score(insert_by_score(s, x)),
        insert_by_score(s, x).to_multiset() == s.to_multiset().insert(x),
        insert_by_score(s, x).len() == s.len() + 1,
    decreases s.len(),
{
    broadcast use group_to_multiset_ensures;

    let r = insert_by_score(s, x);
    if s.len() == 0 {
        assert(r =~= Seq::empty().push(x));
        assert(r.to_multiset() =~= s.to_multiset().insert(x));
    } else if x.0 < s[0].0 {
        assert(r =~= seq![x] + s);
        lemma_multiset_commutative(seq![x], s);
        assert(seq![x] =~= Seq::empty().push(x));
        assert(r.to_multiset() =~= s.to_multiset().insert(x));
        assert forall|i: int, j: int| 0 <= i < j < r.len() implies (#[trigger] r[i]).0
            <= (#[trigger] r[j]).0 by {
            if i == 0 {
                assert(r[j] == s[j - 1]);
                if j > 1 {
                    assert(s[0].0 <= s[j - 1].0);
                }
            } else {
                assert(r[i] == s[i - 1] && r[j] == s[j - 1]);
            }
        }
    } else {
        let tail = s.drop_first();
        assert(sorted_by_score(tail)) by {
            assert forall|i: int, j: int| 0 <= i < j < tail.len() implies (#[trigger] tail[i]).0
                <= (#[trigger] tail[j]).0 by {
                assert(tail[i] == s[i + 1] && tail[j] == s[j + 1]);
            }
        }
        lemma_insert_by_score_props(tail, x);
        let rest = insert_by_score(tail, x);
        assert(r == seq![s[0]] + rest);
        lemma_multiset_commutative(seq![s[0]], rest);
        assert(seq![s[0]] =~= Seq::empty().push(s[0]));
        assert(s =~= seq![s[0]] + tail);
        lemma_multiset_commutative(seq![s[0]], tail);
        assert(r.to_multiset() =~= s.to_multiset().insert(x));
        // every pair in the recursive result is x or came from the tail, so
        // the head's score is no larger than any of them
        lemma_ms_insert_elems(tail, rest, x);
        assert forall|i: int, j: int| 0 <= i < j < r.len() implies (#[trigger] r[i]).0
            <= (#[trigger] r[j]).0 by {
            if i == 0 {
                assert(r[j] == rest[j - 1]);
                if rest[j - 1] == x {
                    assert(s[0].0 <= x.0);
                } else {
                    let m = choose|m: int| 0 <= m < tail.len() && tail[m] == rest[j - 1];
                    assert(s[0].0 <= s[m + 1].0);
                }
            } else {
                assert(r[i] == rest[i - 1] && r[j] == rest[j - 1]);
            }
        }
    }
}

pub proof fn lemma_sort_by_score_props<T>(s: Seq<(u64, T)>)
    ensures
        sorted_by_score(sort_by_score(s)),
        sort_by_score(s).to_multiset() == s.to_multiset(),
        sort_by_score(s).len() == s.len(),
    decreases s.len(),
{
    broadcast use group_to_multiset_ensures;

    if s.len() == 0 {
        assert(sort_by_score(s).to_multiset() =~= s.to_multiset());
    } else {
        lemma_sort_by_score_props(s.drop_last());
        lemma_insert_by_score_props(sort_by_score(s.drop_last()), s.last());
        assert(s =~= s.drop_last().push(s.last()));
        assert(s.to_multiset() == s.drop_last().push(s.last()).to_multiset());
    }
}

/// Inserting at the first position whose score exceeds `x`'s agrees with
/// the spec-level insertion.
pub proof fn lemma_insert_position<T>(s: Seq<(u64, T)>, x: (u64, T), j: int)
    requires
        sorted_by_score(s),
        0 <= j <= s.len(),
        forall|m: int| 0 <= m < j ==> (#[trigger] s[m]).0 <= x.0,
        j < s.len() ==> x.0 < s[j].0,
    ensures
        insert_by_score(s, x) == s.insert(j, x),
    decreases j,
{
    if j == 0 {
        if s.len() == 0 {
            assert(insert_by_score(s, x) =~= s.insert(0, x));
        } else {
            assert(x.0 < s[0].0);
            assert(seq![x] + s =~= s.insert(0, x));
        }
    } else {
        assert(s[0].0 <= x.0);
        let tail = s.drop_first();
        assert(sorted_by_score(tail)) by {
            assert forall|i: int, m: int| 0 <= i < m < tail.len() implies (#[trigger] tail[i]).0
                <= (#[trigger] tail[m]).0 by {
                assert(tail[i] == s[i + 1] && tail[m] == s[m + 1]);
            }
        }
        assert(forall|m: int| 0 <= m < j - 1 ==> (#[trigger] tail[m]).0 <= x.0) by {
            assert(forall|m: int| 0 <= m < j - 1 ==> tail[m] == s[m + 1]);
        }
        lemma_insert_position(tail, x, j - 1);
        assert(insert_by_score(s, x) == seq![s[0]] + tail.insert(j - 1, x));
        assert(seq![s[0]] + tail.insert(j - 1, x) =~= s.insert(j, x));
    }
}

/// The radius filter keeps exactly the pairs within the radius: element
/// counts are preserved inside the radius and zero outside it.
pub proof fn lemma_keep_le_counts<T>(s: Seq<(u64, T)>, radius: u64)
    ensures
        forall|c: (u64, T)|
            #[trigger] keep_le(s, radius).to_multiset().count(c) == if c.0 <= radius {
                s.to_multiset().count(c)
            } else {
                0
            },
    decreases s.len(),
{
    broadcast use group_to_multiset_ensures;
    broadcast use vstd::multiset::group_multiset_axioms;
    broadcast use vstd::multiset::group_multiset_properties;

    if s.len() == 0 {
        assert forall|c: (u64, T)| #[trigger] keep_le(s, radius).to_multiset().count(c) == if c.0
            <= radius {
            s.to_multiset().count(c)
        } else {
            0
        } by {
            assert(!keep_le(s, radius).contains(c));
            assert(!s.contains(c));
        }
    } else {
        lemma_keep_le_counts(s.drop_last(), radius);
        assert(s =~= s.drop_last().push(s.last()));
        assert(s.to_multiset() == s.drop_last().to_multiset().insert(s.last()));
        assert forall|c: (u64, T)| #[trigger] keep_le(s, radius).to_multiset().count(c) == if c.0
            <= radius {
            s.to_multiset().count(c)
        } else {
            0
        } by {
            let prev = keep_le(s.drop_last(), radius).to_multiset();
            assert(prev.count(c) == if c.0 <= radius {
                s.drop_last().to_multiset().count(c)
            } else {
                0
            });
            if c == s.last() {
                assert(s.to_multiset().count(c) == s.drop_last().to_multiset().count(c) + 1);
                if s.last().0 <= radius {
                    assert(keep_le(s, radius).to_multiset() == prev.insert(s.last()));
                    assert(keep_le(s, radius).to_multiset().count(c) == prev.count(c) + 1);
                }
            } else {
                assert(s.to_multiset().count(c) == s.drop_last().to_multiset().count(c));
                if s.last().0 <= radius {
                    assert(keep_le(s, radius).to_multiset() == prev.insert(s.last()));
                    assert(keep_le(s, radius).to_multiset().count(c) == prev.count(c));
                }
            }
        }
    }
}

/// A k-nearest selection is exactly a set of `min(k, n)` smallest-scoring
/// entries: it is sorted ascending, it is a prefix of a sorted permutation
/// of all scored entries, and every unselected entry scores at least as
/// much as every selected one.
pub proof fn lemma_nearest_is_k_smallest<T, D: Distance>(
    metric: D,
    p: Seq<i64>,
    v: Seq<(Seq<i64>, T)>,
    k: int,
)
    requires
        0 <= k,
    ensures
        select_nearest(metric, p, v, k).len() == if k <= v.len() {
            k
        } else {
            v.len() as int
        },
        sorted_by_score(select_nearest(metric, p, v, k)),
        sorted_by_score(sort_by_score(scored(metric, p, v))),
        sort_by_score(scored(metric, p, v)).to_multiset() == scored(metric, p, v).to_multiset(),
        select_nearest(metric, p, v, k) == sort_by_score(scored(metric, p, v)).take(
            if k <= v.len() {
                k
            } else {
                v.len() as int
            },
        ),
        forall|i: int, j: int|
            0 <= i < select_nearest(metric, p, v, k).len() && select_nearest(
                metric,
                p,
                v,
                k,
            ).len() <= j < sort_by_score(scored(metric, p, v)).len() ==> (#[trigger] select_nearest(
                metric,
                p,
                v,
                k,
            )[i]).0 <= (#[trigger] sort_by_score(scored(metric, p, v))[j]).0,
{
    lemma_sort_by_score_props(scored(metric, p, v));
    let full = sort_by_score(scored(metric, p, v));
    let res = select_nearest(metric, p, v, k);
    let m = if k <= v.len() {
        k
    } else {
        v.len() as int
    };
    assert(res == full.take(m));
    assert forall|i: int, j: int| 0 <= i < res.len() && res.len() <= j < full.len() implies (
    #[trigger] res[i]).0 <= (#[trigger] full[j]).0 by {
        assert(res[i] == full[i]);
    }
    assert forall|i: int, j: int| 0 <= i < j < res.len() implies (#[trigger] res[i]).0 <= (
    #[trigger] res[j]).0 by {
        assert(res[i] == full[i] && res[j] == full[j]);
    }
}

/// A radius selection returns exactly the entries within the radius — the
/// pair counts agree inside the radius and are zero outside it, so there
/// are no false positives and no false negatives — sorted by score.
pub proof fn lemma_within_exact<T, D: Distance>(
    metric: D,
    p: Seq<i64>,
    v: Seq<(Seq<i64>, T)>,
    radius: u64,
)
    ensures
        forall|c: (u64, T)|
            #[trigger] select_within(metric, p, v, radius).to_multiset().count(c) == if c.0
                <= radius {
                scored(metric, p, v).to_multiset().count(c)
            } else {
                0
            },
        forall|c: (u64, T)|
            #[trigger] select_within(metric, p, v, radius).contains(c) <==> scored(
                metric,
                p,
                v,
            ).contains(c) && c.0 <= radius,
        sorted_by_score(select_within(metric, p, v, radius)),
{
    broadcast use group_to_multiset_ensures;

    lemma_keep_le_counts(scored(metric, p, v), radius);
    lemma_sort_by_score_props(keep_le(scored(metric, p, v), radius));
    assert forall|c: (u64, T)| #[trigger] select_within(metric, p, v, radius).contains(c) <==> scored(
        metric,
        p,
        v,
    ).contains(c) && c.0 <= radius by {
        assert(select_within(metric, p, v, radius).contains(c) <==> select_within(
            metric,
            p,
            v,
            radius,
        ).to_multiset().count(c) > 0);
        assert(scored(metric, p, v).contains(c) <==> scored(metric, p, v).to_multiset().count(c)
            > 0);
    }
}

/// Sorts pairs ascending by score, stably: the result is exactly the
/// spec-level insertion sort of the input.
pub(crate) fn sort_pairs<T: Copy>(v: Vec<(u64, T)>) -> (r: Vec<(u64, T)>)
    ensures
        r@ == sort_by_score(v@),
{
    let mut out: Vec<(u64, T)> = Vec::new();
    let mut i: usize = 0;
    while i < v.len()
        invariant
            0 <= i <= v@.len(),
            out@ == sort_by_score(v@.take(i as int)),
        decreases v@.len() - i,
    {
        let x = v[i];
        let mut j: usize = 0;
        while j < out.len() && out[j].0 <= x.0
            invariant
                0 <= j <= out@.len(),
                forall|m: int| 0 <= m < j ==> (#[trigger] out@[m]).0 <= x.0,
            decreases out@.len() - j,
        {
            j = j + 1;
        }
        proof {
            lemma_sort_by_score_props(v@.take(i as int));
            lemma_insert_position(out@, x, j as int);
            assert(v@.take(i + 1).drop_last() =~= v@.take(i as int));
            assert(v@.take(i + 1).last() == v@[i as int]);
        }
        out.insert(j, x);
        i = i + 1;
    }
    proof {
        assert(v@.take(v@.len() as int) =~= v@);
    }
    out
}

/// Keeps exactly the pairs whose score is at most `radius`, in order.
pub(crate) fn filter_within<T: Copy>(v: &Vec<(u64, T)>, radius: u64) -> (r: Vec<(u64, T)>)
    ensures
        r@ == keep_le(v@, radius),
{
    let mut out: Vec<(u64, T)> = Vec::new();
    let mut i: usize = 0;
    while i < v.len()
        invariant
            0 <= i <= v@.len(),
            out@ == keep_le(v@.take(i as int), radius),
        decreases v@.len() - i,
    {
        proof {
            assert(v@.take(i + 1).drop_last() =~= v@.take(i as int));
            assert(v@.take(i + 1).last() == v@[i as int]);
        }
        if v[i].0 <= radius {
            out.push(v[i]);
        }
        i = i + 1;
    }
    proof {
        assert(v@.take(v@.len() as int) =~= v@);
    }
    out
}

} // verus!
