//! The recursive partition tree.
//!
//! A node is either a leaf bucket of entries or an internal node that splits
//! on one coordinate axis: entries strictly below the split value live in the
//! left subtree, all others in the right. The split axis rotates with depth.
//! A leaf splits as soon as a second entry arrives, taking the new point's
//! coordinate on the rotating axis as the split value.
//!
//! Queries visit both subtrees of every internal node: under an arbitrary
//! caller-supplied metric no hyperplane bound is sound, so the conservative
//! traversal is the one that is correct for every metric.

use vstd::prelude::*;
use vstd::multiset::Multiset;
use vstd::seq_lib::group_to_multiset_ensures;
use vstd::seq_lib::lemma_multiset_commutative;
use crate::distance::Distance;
use crate::select::scored;
use crate::select::all_scores_ok;
use crate::select::lemma_ms_insert_elems;

verus! {

pub(crate) enum Node<T> {
    Leaf(Vec<(Vec<i64>, T)>),
    Internal { dim: usize, split: i64, left: Box<Node<T>>, right: Box<Node<T>> },
}

/// A leaf bucket's entries as the spec-level pairs they stand for.
pub(crate) open spec fn leaf_view<T>(es: Seq<(Vec<i64>, T)>) -> Seq<(Seq<i64>, T)> {
    es.map_values(|e: (Vec<i64>, T)| (e.0@, e.1))
}

impl<T> Node<T> {
    /// Every entry of the subtree, leaves left to right, buckets in order.
    pub(crate) open spec fn entries(self) -> Seq<(Seq<i64>, T)>
        decreases self,
    {
        match self {
            Node::Leaf(es) => leaf_view(es@),
            Node::Internal { left, right, .. } => left.entries() + right.entries(),
        }
    }

    /// Well-formedness at rotation position `cur`: every point has `dims`
    /// coordinates, the split axis equals the rotation position, and each
    /// subtree's entries lie on the correct side of the split value.
    pub(crate) open spec fn wf(self, dims: nat, cur: nat) -> bool
        decreases self,
    {
        match self {
            Node::Leaf(es) => forall|i: int|
                0 <= i < leaf_view(es@).len() ==> (#[trigger] leaf_view(es@)[i]).0.len() == dims,
            Node::Internal { dim, split, left, right } => {
                &&& dim == cur
                &&& cur < dims
                &&& left.wf(dims, (cur + 1) % dims)
                &&& right.wf(dims, (cur + 1) % dims)
                &&& forall|i: int|
                    0 <= i < left.entries().len() ==> (#[trigger] left.entries()[i]).0[dim as int]
                        < split
                &&& forall|i: int|
                    0 <= i < right.entries().len() ==> (#[trigger] right.entries()[i]).0[
                        dim as int] >= split
            },
        }
    }

    /// A well-formed subtree's points all have `dims` coordinates.
    pub(crate) proof fn lemma_wf_entry_len(self, dims: nat, cur: nat)
        requires
            self.wf(dims, cur),
        ensures
            forall|i: int|
                0 <= i < self.entries().len() ==> (#[trigger] self.entries()[i]).0.len() == dims,
        decreases self,
    {
        match self {
            Node::Leaf(es) => {},
            Node::Internal { dim, split, left, right } => {
                let next = (cur + 1) % dims;
                left.lemma_wf_entry_len(dims, next);
                right.lemma_wf_entry_len(dims, next);
                assert forall|i: int| 0 <= i < self.entries().len() implies (#[trigger] self
                    .entries()[i]).0.len() == dims by {
                    if i < left.entries().len() {
                        assert(self.entries()[i] == left.entries()[i]);
                    } else {
                        assert(self.entries()[i] == right.entries()[i - left.entries().len()]);
                    }
                }
            },
        }
    }

    /// Inserts one entry, descending by the split values and splitting the
    /// leaf it reaches. The subtree keeps its shape invariant and gains
    /// exactly the new entry.
    pub(crate) fn insert(self, dims: usize, cur: usize, point: Vec<i64>, data: T) -> (r: Node<T>)
        requires
            self.wf(dims as nat, cur as nat),
            cur < dims,
            point@.len() == dims,
        ensures
            r.wf(dims as nat, cur as nat),
            r.entries().to_multiset() == self.entries().to_multiset().insert((point@, data)),
            r.entries().len() == self.entries().len() + 1,
        decreases self,
    {
        broadcast use group_to_multiset_ensures;
        broadcast use vstd::multiset::group_multiset_axioms;
        broadcast use vstd::multiset::group_multiset_properties;

        match self {
            Node::Leaf(mut es) => {
                if es.len() == 0 {
                    let ghost old_entries = leaf_view(es@);
                    let ghost pv = (point@, data);
                    es.push((point, data));
                    proof {
                        assert(self.entries() == old_entries);
                        assert(old_entries =~= Seq::<(Seq<i64>, T)>::empty());
                        assert(leaf_view(es@) =~= old_entries.push(pv));
                        vstd::seq_lib::to_multiset_build(old_entries, pv);
                    }
                    Node::Leaf(es)
                } else {
                    let ghost orig = leaf_view(es@);
                    proof {
                        assert(self.entries() == orig);
                    }
                    let split: i64 = point[cur];
                    let mut left_es: Vec<(Vec<i64>, T)> = Vec::new();
                    let mut right_es: Vec<(Vec<i64>, T)> = Vec::new();
                    while es.len() > 0
                        invariant
                            forall|i: int|
                                0 <= i < leaf_view(es@).len() ==> (#[trigger] leaf_view(
                                    es@,
                                )[i]).0.len() == dims,
                            forall|i: int|
                                0 <= i < leaf_view(left_es@).len() ==> (#[trigger] leaf_view(
                                    left_es@,
                                )[i]).0.len() == dims && leaf_view(left_es@)[i].0[cur as int]
                                    < split,
                            forall|i: int|
                                0 <= i < leaf_view(right_es@).len() ==> (#[trigger] leaf_view(
                                    right_es@,
                                )[i]).0.len() == dims && leaf_view(right_es@)[i].0[cur as int]
                                    >= split,
                            leaf_view(es@).to_multiset().add(
                                leaf_view(left_es@).to_multiset(),
                            ).add(leaf_view(right_es@).to_multiset()) == orig.to_multiset(),
                            cur < dims,
                        decreases es.len(),
                    {
                        let ghost pre = leaf_view(es@);
                        let e = es.pop().unwrap();
                        let ghost ev = (e.0@, e.1);
                        proof {
                            assert(pre.last() == ev);
                            assert(leaf_view(es@) =~= pre.drop_last());
                            assert(pre =~= leaf_view(es@).push(ev));
                            vstd::seq_lib::to_multiset_build(leaf_view(es@), ev);
                            assert(pre.to_multiset() == leaf_view(es@).to_multiset().insert(ev));
                        }
                        let c: i64 = e.0[cur];
                        if c < split {
                            let ghost lpre = leaf_view(left_es@);
                            left_es.push(e);
                            proof {
                                assert(leaf_view(left_es@) =~= lpre.push(ev));
                                vstd::seq_lib::to_multiset_build(lpre, ev);
                                assert(leaf_view(es@).to_multiset().add(
                                    leaf_view(left_es@).to_multiset(),
                                ).add(leaf_view(right_es@).to_multiset()) =~= orig.to_multiset());
                            }
                        } else {
                            let ghost rpre = leaf_view(right_es@);
                            right_es.push(e);
                            proof {
                                assert(leaf_view(right_es@) =~= rpre.push(ev));
                                vstd::seq_lib::to_multiset_build(rpre, ev);
                                assert(leaf_view(es@).to_multiset().add(
                                    leaf_view(left_es@).to_multiset(),
                                ).add(leaf_view(right_es@).to_multiset()) =~= orig.to_multiset());
                            }
                        }
                    }
                    let ghost rpre = leaf_view(right_es@);
                    let ghost pv = (point@, data);
                    right_es.push((point, data));
                    let ghost lv = leaf_view(left_es@);
                    let ghost rv = leaf_view(right_es@);
                    let r = Node::Internal {
                        dim: cur,
                        split,
                        left: Box::new(Node::Leaf(left_es)),
                        right: Box::new(Node::Leaf(right_es)),
                    };
                    proof {
                        assert(leaf_view(es@) =~= Seq::<(Seq<i64>, T)>::empty());
                        assert(leaf_view(es@).to_multiset() =~= Multiset::<(Seq<i64>, T)>::empty());
                        assert(rv =~= rpre.push(pv));
                        vstd::seq_lib::to_multiset_build(rpre, pv);
                        assert(Node::Leaf(left_es).entries() == lv);
                        assert(Node::Leaf(right_es).entries() == rv);
                        assert(r.entries() == lv + rv);
                        lemma_multiset_commutative(lv, rv);
                        assert(r.entries().to_multiset() =~= orig.to_multiset().insert(pv));
                        // the new entry lands on the right of its own split value
                        assert forall|i: int| 0 <= i < rv.len() implies (#[trigger] rv[i]).0.len()
                            == dims && rv[i].0[cur as int] >= split by {
                            if i < rpre.len() {
                                assert(rv[i] == rpre[i]);
                            } else {
                                assert(rv[i] == pv);
                            }
                        }
                        let nxt = ((cur as nat) + 1) % (dims as nat);
                        assert(Node::Leaf(left_es).wf(dims as nat, nxt));
                        assert(Node::Leaf(right_es).wf(dims as nat, nxt));
                        assert(r.wf(dims as nat, cur as nat));
                        assert(r.entries().len() == r.entries().to_multiset().len());
                        assert(orig.len() == orig.to_multiset().len());
                    }
                    r
                }
            },
            Node::Internal { dim, split, left, right } => {
                let c: i64 = point[dim];
                let next: usize = (dim + 1) % dims;
                let ghost old_left = left.entries();
                let ghost old_right = right.entries();
                if c < split {
                    let nl = (*left).insert(dims, next, point, data);
                    let r = Node::Internal { dim, split, left: Box::new(nl), right };
                    proof {
                        lemma_ms_insert_elems(old_left, nl.entries(), (point@, data));
                        assert forall|i: int| 0 <= i < nl.entries().len() implies (
                        #[trigger] nl.entries()[i]).0[dim as int] < split by {
                            if nl.entries()[i] != (point@, data) {
                                let m = choose|m: int|
                                    0 <= m < old_left.len() && old_left[m] == nl.entries()[i];
                                assert(old_left[m].0[dim as int] < split);
                            }
                        }
                        lemma_multiset_commutative(old_left, old_right);
                        lemma_multiset_commutative(nl.entries(), old_right);
                        assert(r.entries().to_multiset() =~= self.entries().to_multiset().insert(
                            (point@, data),
                        ));
                    }
                    r
                } else {
                    let nr = (*right).insert(dims, next, point, data);
                    let r = Node::Internal { dim, split, left, right: Box::new(nr) };
                    proof {
                        lemma_ms_insert_elems(old_right, nr.entries(), (point@, data));
                        assert forall|i: int| 0 <= i < nr.entries().len() implies (
                        #[trigger] nr.entries()[i]).0[dim as int] >= split by {
                            if nr.entries()[i] != (point@, data) {
                                let m = choose|m: int|
                                    0 <= m < old_right.len() && old_right[m] == nr.entries()[i];
                                assert(old_right[m].0[dim as int] >= split);
                            }
                        }
                        lemma_multiset_commutative(old_left, old_right);
                        lemma_multiset_commutative(old_left, nr.entries());
                        assert(r.entries().to_multiset() =~= self.entries().to_multiset().insert(
                            (point@, data),
                        ));
                    }
                    r
                }
            },
        }
    }
}

impl<T: Copy> Node<T> {
    /// Scores every entry of the subtree against `point`, appending the
    /// `(score, payload)` pairs in traversal order. Returns `false`, leaving
    /// a prefix behind, exactly when some entry's distance has no `u64`
    /// representation.
    pub(crate) fn collect_scored<D: Distance>(
        &self,
        point: &Vec<i64>,
        metric: &D,
        out: &mut Vec<(u64, T)>,
    ) -> (ok: bool)
        requires
            forall|i: int|
                0 <= i < self.entries().len() ==> (#[trigger] self.entries()[i]).0.len()
                    == point@.len(),
        ensures
            ok ==> all_scores_ok(*metric, point@, self.entries()) && final(out)@ == old(out)@
                + scored(*metric, point@, self.entries()),
            !ok ==> !all_scores_ok(*metric, point@, self.entries()),
        decreases *self,
    {
        match self {
            Node::Leaf(es) => {
                let ghost whole = leaf_view(es@);
                proof {
                    assert(self.entries() == whole);
                }
                let mut i: usize = 0;
                while i < es.len()
                    invariant
                        0 <= i <= es@.len(),
                        whole == leaf_view(es@),
                        self.entries() == whole,
                        forall|m: int|
                            0 <= m < whole.len() ==> (#[trigger] whole[m]).0.len() == point@.len(),
                        all_scores_ok(*metric, point@, whole.take(i as int)),
                        out@ == old(out)@ + scored(*metric, point@, whole.take(i as int)),
                    decreases es@.len() - i,
                {
                    proof {
                        assert(whole[i as int] == (es@[i as int].0@, es@[i as int].1));
                    }
                    let r = metric.dist(point, &es[i].0);
                    proof {
                        assert(whole.take(i + 1).drop_last() =~= whole.take(i as int));
                        assert(scored(*metric, point@, whole.take(i + 1)) =~= scored(
                            *metric,
                            point@,
                            whole.take(i as int),
                        ).push(
                            (
                                (metric.spec_dist(point@, whole[i as int].0)) as u64,
                                whole[i as int].1,
                            ),
                        ));
                        assert forall|m: int| 0 <= m < whole.take(i + 1).len() implies 0
                            <= metric.spec_dist(point@, (#[trigger] whole.take(i + 1)[m]).0)
                            <= u64::MAX || r is None by {
                            assert(whole.take(i + 1)[m] == whole[m]);
                            if m < i {
                                assert(whole.take(i as int)[m] == whole[m]);
                            }
                        }
                    }
                    match r {
                        Some(v) => {
                            out.push((v, es[i].1));
                        },
                        None => {
                            proof {
                                assert(self.entries() == whole);
                                assert(!(0 <= metric.spec_dist(point@, whole[i as int].0)
                                    <= u64::MAX));
                            }
                            return false;
                        },
                    }
                    i = i + 1;
                }
                proof {
                    assert(whole.take(whole.len() as int) =~= whole);
                }
                true
            },
            Node::Internal { dim, split, left, right } => {
                let ghost le = left.entries();
                let ghost re = right.entries();
                proof {
                    assert(self.entries() == le + re);
                    assert forall|i: int| 0 <= i < le.len() implies (#[trigger] le[i]).0.len()
                        == point@.len() by {
                        assert(self.entries()[i] == le[i]);
                    }
                    assert forall|i: int| 0 <= i < re.len() implies (#[trigger] re[i]).0.len()
                        == point@.len() by {
                        assert(self.entries()[le.len() + i] == re[i]);
                    }
                }
                let ok_left = left.collect_scored(point, metric, out);
                if !ok_left {
                    proof {
                        let m = choose|m: int|
                            0 <= m < le.len() && !(0 <= metric.spec_dist(
                                point@,
                                (#[trigger] le[m]).0,
                            ) <= u64::MAX);
                        assert(self.entries()[m] == le[m]);
                    }
                    return false;
                }
                let ok_right = right.collect_scored(point, metric, out);
                if !ok_right {
                    proof {
                        let m = choose|m: int|
                            0 <= m < re.len() && !(0 <= metric.spec_dist(
                                point@,
                                (#[trigger] re[m]).0,
                            ) <= u64::MAX);
                        assert(self.entries()[le.len() + m] == re[m]);
                    }
                    return false;
                }
                proof {
                    assert forall|i: int| 0 <= i < self.entries().len() implies 0
                        <= metric.spec_dist(point@, (#[trigger] self.entries()[i]).0)
                        <= u64::MAX by {
                        if i < le.len() {
                            assert(self.entries()[i] == le[i]);
                        } else {
                            assert(self.entries()[i] == re[i - le.len()]);
                        }
                    }
                    assert(scored(*metric, point@, le + re) =~= scored(*metric, point@, le)
                        + scored(*metric, point@, re));
                }
                true
            },
        }
    }
}

} // verus!
