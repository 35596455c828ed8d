//! The public spatial index.
//!
//! An index is created with a fixed dimensionality and owns a partition
//! tree of entries. Its abstract view is the sequence of stored
//! `(point, payload)` entries in tree traversal order; every contract is
//! stated over that view. Insertion is described up to entry multiset
//! (splitting reorders buckets); both queries return exactly the selection
//! that `select_nearest` / `select_within` describe: sorted ascending by
//! score, equal scores keeping traversal order.

use vstd::prelude::*;
use vstd::multiset::Multiset;
use vstd::seq_lib::group_to_multiset_ensures;
use crate::KdError;
use crate::distance::Distance;
use crate::distance::SquaredEuclidean;
use crate::select::all_scores_ok;
use crate::select::scored;
use crate::select::keep_le;
use crate::select::sort_by_score;
use crate::select::select_nearest;
use crate::select::select_within;
use crate::select::sorted_by_score;
use crate::select::sort_pairs;
use crate::select::filter_within;
use crate::select::lemma_sort_by_score_props;
use crate::tree::Node;

verus! {

/// A k-dimensional spatial index over integer-coordinate points, each entry
/// carrying an opaque payload.
pub struct KdTree<T> {
    root: Option<Node<T>>,
    dimensions: usize,
    count: usize,
}

impl<T> View for KdTree<T> {
    type V = Seq<(Seq<i64>, T)>;

    closed spec fn view(&self) -> Seq<(Seq<i64>, T)> {
        match self.root {
            Some(n) => n.entries(),
            None => Seq::empty(),
        }
    }
}

impl<T> KdTree<T> {
    /// The dimensionality fixed at construction.
    pub closed spec fn dims(&self) -> nat {
        self.dimensions as nat
    }

    /// The structural invariant: at least one dimension, the running count
    /// matches the stored entries, and the tree partitions correctly.
    pub closed spec fn wf(&self) -> bool {
        &&& self.dimensions >= 1
        &&& self.count == self@.len()
        &&& match self.root {
            Some(n) => n.wf(self.dimensions as nat, 0),
            None => true,
        }
    }

    /// Creates an empty index over `dimensions`-coordinate points; a
    /// zero-dimensional space is refused.
    pub fn new(dimensions: usize) -> (r: Result<KdTree<T>, KdError>)
        ensures
            match r {
                Ok(t) => dimensions >= 1 && t.wf() && t.dims() == dimensions && t@ == Seq::<
                    (Seq<i64>, T),
                >::empty(),
                Err(e) => dimensions == 0 && e == KdError::InvalidDimensions,
            },
    {
        if dimensions == 0 {
            Err(KdError::InvalidDimensions)
        } else {
            Ok(KdTree { root: None, dimensions, count: 0 })
        }
    }

    /// The number of stored entries.
    pub fn size(&self) -> (n: usize)
        requires
            self.wf(),
        ensures
            n == self@.len(),
    {
        self.count
    }

    /// Stores one entry. The point must have the index's dimensionality;
    /// otherwise the index is left untouched and the mismatch is reported.
    /// On success the stored entries are exactly the old ones plus the new
    /// one.
    pub fn add(&mut self, point: Vec<i64>, data: T) -> (r: Result<(), KdError>)
        requires
            old(self).wf(),
            old(self)@.len() < usize::MAX,
        ensures
            final(self).wf(),
            final(self).dims() == old(self).dims(),
            match r {
                Ok(()) => point@.len() == old(self).dims() && final(self)@.to_multiset() == old(
                    self,
                )@.to_multiset().insert((point@, data)) && final(self)@.len() == old(self)@.len()
                    + 1,
                Err(e) => e == KdError::DimensionMismatch && point@.len() != old(self).dims()
                    && *final(self) == *old(self),
            },
    {
        broadcast use group_to_multiset_ensures;

        if point.len() != self.dimensions {
            return Err(KdError::DimensionMismatch);
        }
        let ghost pv = (point@, data);
        let root = self.root.take();
        let node = match root {
            None => {
                let mut es: Vec<(Vec<i64>, T)> = Vec::new();
                es.push((point, data));
                proof {
                    assert(Node::Leaf(es).entries() =~= Seq::<(Seq<i64>, T)>::empty().push(pv));
                    assert(old(self)@ =~= Seq::<(Seq<i64>, T)>::empty());
                    assert(old(self)@.to_multiset() =~= Multiset::<(Seq<i64>, T)>::empty());
                }
                Node::Leaf(es)
            },
            Some(n) => n.insert(self.dimensions, 0, point, data),
        };
        self.root = Some(node);
        self.count = self.count + 1;
        Ok(())
    }

    /// Discards the index and everything it owns.
    pub fn drop(self) {
        let _ = self;
    }
}

impl<T: Copy> KdTree<T> {
    /// The up-to-`num` stored entries nearest to `point` under `metric`,
    /// as `(score, payload)` pairs sorted ascending by score; equal scores
    /// keep tree traversal order. The query mutates nothing. It fails only
    /// on a point of the wrong dimensionality, or when some stored entry's
    /// distance from `point` has no `u64` representation.
    pub fn nearest<D: Distance>(&mut self, point: Vec<i64>, num: usize, metric: &D) -> (r: Result<
        Vec<(u64, T)>,
        KdError,
    >)
        requires
            old(self).wf(),
        ensures
            *final(self) == *old(self),
            (r is Ok) <==> (point@.len() == old(self).dims() && all_scores_ok(
                *metric,
                point@,
                old(self)@,
            )),
            match r {
                Ok(res) => res@ == select_nearest(*metric, point@, old(self)@, num as int)
                    && sorted_by_score(res@) && res@.len() == (if num as int <= old(self)@.len() {
                    num as int
                } else {
                    old(self)@.len() as int
                }),
                Err(e) => (e == KdError::DimensionMismatch && point@.len() != old(self).dims())
                    || (e == KdError::DistanceFnError && point@.len() == old(self).dims()
                    && !all_scores_ok(*metric, point@, old(self)@)),
            },
    {
        if point.len() != self.dimensions {
            return Err(KdError::DimensionMismatch);
        }
        let mut cands: Vec<(u64, T)> = Vec::new();
        let ok = match &self.root {
            None => {
                proof {
                    assert(scored(*metric, point@, self@) =~= cands@);
                }
                true
            },
            Some(n) => {
                proof {
                    n.lemma_wf_entry_len(self.dimensions as nat, 0);
                }
                n.collect_scored(&point, metric, &mut cands)
            },
        };
        if !ok {
            return Err(KdError::DistanceFnError);
        }
        let full = sort_pairs(cands);
        proof {
            lemma_sort_by_score_props(scored(*metric, point@, self@));
        }
        let mut res = full;
        res.truncate(num);
        proof {
            let sorted_all = sort_by_score(scored(*metric, point@, self@));
            if num <= sorted_all.len() {
                assert(res@ =~= sorted_all.take(num as int));
            } else {
                assert(res@ =~= sorted_all.take(sorted_all.len() as int));
            }
        }
        Ok(res)
    }

    /// `nearest` with the built-in squared-Euclidean metric.
    pub fn nearest_euclidean(&mut self, point: Vec<i64>, num: usize) -> (r: Result<
        Vec<(u64, T)>,
        KdError,
    >)
        requires
            old(self).wf(),
        ensures
            *final(self) == *old(self),
            (r is Ok) <==> (point@.len() == old(self).dims() && all_scores_ok(
                SquaredEuclidean,
                point@,
                old(self)@,
            )),
            match r {
                Ok(res) => res@ == select_nearest(SquaredEuclidean, point@, old(self)@, num as int)
                    && sorted_by_score(res@) && res@.len() == (if num as int <= old(self)@.len() {
                    num as int
                } else {
                    old(self)@.len() as int
                }),
                Err(e) => (e == KdError::DimensionMismatch && point@.len() != old(self).dims())
                    || (e == KdError::DistanceFnError && point@.len() == old(self).dims()
                    && !all_scores_ok(SquaredEuclidean, point@, old(self)@)),
            },
    {
        self.nearest(point, num, &SquaredEuclidean)
    }

    /// Every stored entry whose distance from `point` under `metric` is at
    /// most `radius` (inclusive), as `(score, payload)` pairs sorted
    /// ascending by score; equal scores keep tree traversal order. Fails
    /// exactly as `nearest` does.
    pub fn within<D: Distance>(&self, point: Vec<i64>, radius: u64, metric: &D) -> (r: Result<
        Vec<(u64, T)>,
        KdError,
    >)
        requires
            self.wf(),
        ensures
            (r is Ok) <==> (point@.len() == self.dims() && all_scores_ok(*metric, point@, self@)),
            match r {
                Ok(res) => res@ == select_within(*metric, point@, self@, radius)
                    && sorted_by_score(res@),
                Err(e) => (e == KdError::DimensionMismatch && point@.len() != self.dims()) || (e
                    == KdError::DistanceFnError && point@.len() == self.dims() && !all_scores_ok(
                    *metric,
                    point@,
                    self@,
                )),
            },
    {
        if point.len() != self.dimensions {
            return Err(KdError::DimensionMismatch);
        }
        let mut cands: Vec<(u64, T)> = Vec::new();
        let ok = match &self.root {
            None => {
                proof {
                    assert(scored(*metric, point@, self@) =~= cands@);
                }
                true
            },
            Some(n) => {
                proof {
                    n.lemma_wf_entry_len(self.dimensions as nat, 0);
                }
                n.collect_scored(&point, metric, &mut cands)
            },
        };
        if !ok {
            return Err(KdError::DistanceFnError);
        }
        let kept = filter_within(&cands, radius);
        let res = sort_pairs(kept);
        proof {
            lemma_sort_by_score_props(keep_le(scored(*metric, point@, self@), radius));
        }
        Ok(res)
    }

    /// `within` with the built-in squared-Euclidean metric.
    pub fn within_euclidean(&self, point: Vec<i64>, radius: u64) -> (r: Result<
        Vec<(u64, T)>,
        KdError,
    >)
        requires
            self.wf(),
        ensures
            (r is Ok) <==> (point@.len() == self.dims() && all_scores_ok(
                SquaredEuclidean,
                point@,
                self@,
            )),
            match r {
                Ok(res) => res@ == select_within(SquaredEuclidean, point@, self@, radius)
                    && sorted_by_score(res@),
                Err(e) => (e == KdError::DimensionMismatch && point@.len() != self.dims()) || (e
                    == KdError::DistanceFnError && point@.len() == self.dims() && !all_scores_ok(
                    SquaredEuclidean,
                    point@,
                    self@,
                )),
            },
    {
        self.within(point, radius, &SquaredEuclidean)
    }
}

} // verus!
