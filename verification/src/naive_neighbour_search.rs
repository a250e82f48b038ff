//! Nearest-neighbour search by linear scan.
use vstd::prelude::*;
use crate::number::Real;
use crate::traits::{nearer, Distance, NeighbourIter, NeighbourSearch};

verus! {

/// Naive nearest neighbour search
///
/// Holds one entry per point, with the distance of the point from the centre
/// of the latest search, and marks the points that were removed.
#[derive(Debug)]
pub struct NaiveNeighbourSearch {
    dist: Vec<(usize, Real)>,
    removed: Vec<bool>,
}

impl NeighbourSearch for NaiveNeighbourSearch {
    type Iter = NaiveNeighbourIter;

    closed spec fn wf(&self) -> bool {
        &&& self.removed.len() == self.dist.len()
        &&& forall|i: int| 0 <= i < self.dist.len() ==> (#[trigger] self.dist[i]).0 == i
    }

    closed spec fn npoints(&self) -> nat {
        self.dist.len() as nat
    }

    closed spec fn remaining(&self) -> Set<usize> {
        Set::new(|i: usize| i < self.removed.len() && !self.removed[i as int])
    }

    fn new_with_dist<D: Distance>(npoints: usize, _d: &D) -> (r: Self)
    {
        let mut dist: Vec<(usize, Real)> = Vec::new();
        let mut removed: Vec<bool> = Vec::new();
        let mut id: usize = 0;
        while id < npoints
            invariant
                id <= npoints,
                dist.len() == id,
                removed.len() == id,
                forall|i: int| 0 <= i < id ==> (#[trigger] dist[i]).0 == i,
                forall|i: int| 0 <= i < id ==> !(#[trigger] removed[i]),
            decreases npoints - id,
        {
            dist.push((id, Real::zero()));
            removed.push(false);
            id += 1;
        }
        let r = NaiveNeighbourSearch { dist, removed };
        assert(r.remaining() =~= Set::new(|i: usize| i < npoints));
        r
    }

    fn remove(&mut self, point: usize)
    {
        self.removed[point] = true;
        assert(self.remaining() =~= old(self).remaining().remove(point));
    }

    fn nearest_in<D: Distance>(&mut self, point: usize, d: &D) -> (it: NaiveNeighbourIter)
    {
        let n = self.dist.len();
        let mut candidates: Vec<usize> = Vec::new();
        let mut id: usize = 0;
        while id < n
            invariant
                id <= n,
                n == self.dist.len(),
                self.removed == old(self).removed,
                self.wf(),
                point < n,
                d.wf(),
                d.npoints() == n,
                candidates@.no_duplicates(),
                forall|k: int| 0 <= k < candidates.len() ==> (#[trigger] candidates[k]) < id,
                forall|j: usize| candidates@.contains(j) <==> j < id && j != point && !self.removed[j as int],
                forall|j: usize| candidates@.contains(j) ==> (#[trigger] self.dist[j as int]).1 == d.dist(j as int, point as int),
            decreases n - id,
        {
            if id != point && !self.removed[id] {
                let dist = d.distance(id, point);
                self.dist[id] = (id, dist);
                proof {
                    let ghost before = candidates@;
                    assert forall|j: usize| before.push(id).contains(j) <==> j < id + 1 && j != point
                        && !self.removed[j as int] by {
                        if before.push(id).contains(j) {
                            let k = choose|k: int| 0 <= k < before.push(id).len() && before.push(id)[k] == j;
                            if k < before.len() {
                                assert(before.contains(j));
                            }
                        }
                        if j < id + 1 && j != point && !self.removed[j as int] {
                            if j == id {
                                assert(before.push(id)[before.len() as int] == j);
                            } else {
                                assert(before.contains(j));
                                let k = choose|k: int| 0 <= k < before.len() && before[k] == j;
                                assert(before.push(id)[k] == j);
                            }
                        }
                    }
                }
                candidates.push(id);
            }
            id += 1;
        }
        let mut dist: Vec<(usize, Real)> = Vec::new();
        let mut k: usize = 0;
        while k < n
            invariant
                k <= n,
                n == self.dist.len(),
                dist.len() == k,
                forall|i: int| 0 <= i < k ==> dist[i] == self.dist[i],
            decreases n - k,
        {
            dist.push(self.dist[k]);
            k += 1;
        }
        let it = NaiveNeighbourIter { dist, candidates };
        proof {
            assert(it.dist@ =~= self.dist@);
            vstd::seq_lib::seq_to_set_is_finite(it.candidates@);
            assert(it.pending() =~= old(self).remaining().remove(point));
        }
        it
    }
}

impl NaiveNeighbourSearch {
    /// Whether the point has not been removed.
    pub fn is_remaining(&self, point: usize) -> (r: bool)
        requires
            self.wf(),
        ensures
            r == self.remaining().contains(point),
    {
        point < self.removed.len() && !self.removed[point]
    }
}

/// The neighbours found by a [`NaiveNeighbourSearch`].
#[derive(Debug)]
pub struct NaiveNeighbourIter {
    dist: Vec<(usize, Real)>,
    candidates: Vec<usize>,
}

impl NaiveNeighbourIter {
    /// The candidate at position `pos`, with its distance.
    closed spec fn entry(&self, pos: int) -> (usize, Real) {
        (self.candidates[pos], self.dist[self.candidates[pos] as int].1)
    }
}

impl NeighbourIter for NaiveNeighbourIter {
    closed spec fn wf(&self) -> bool {
        &&& self.candidates@.no_duplicates()
        &&& forall|k: int| 0 <= k < self.candidates.len() ==> (#[trigger] self.candidates[k]) < self.dist.len()
    }

    closed spec fn pending(&self) -> Set<usize> {
        self.candidates@.to_set()
    }

    closed spec fn dist_to(&self, id: usize) -> Real {
        self.dist[id as int].1
    }

    fn next(&mut self) -> (r: Option<(usize, Real)>)
    {
        let len = self.candidates.len();
        if len == 0 {
            assert(self.candidates@.to_set() =~= Set::empty());
            return None;
        }
        let mut best: usize = 0;
        let mut pos: usize = 1;
        while pos < len
            invariant
                self.wf(),
                len == self.candidates.len(),
                best < pos <= len,
                forall|k: int| 0 <= k < pos ==> nearer(self.entry(best as int), #[trigger] self.entry(k)),
            decreases len - pos,
        {
            let c = self.candidates[pos];
            let b = self.candidates[best];
            let dc = self.dist[c].1;
            let db = self.dist[b].1;
            if dc.lt(db) || (dc.same(db) && c < b) {
                assert forall|k: int| 0 <= k < pos + 1 implies nearer(self.entry(pos as int), #[trigger] self.entry(k)) by {
                    if k < pos {
                        assert(nearer(self.entry(best as int), self.entry(k)));
                    }
                }
                best = pos;
            }
            pos += 1;
        }
        let ghost before = self.candidates@;
        let idx = self.candidates.swap_remove(best);
        let d = self.dist[idx].1;
        proof {
            let after = self.candidates@;
            assert(after =~= before.update(best as int, before.last()).drop_last());
            assert forall|i: int, j: int| 0 <= i < after.len() && 0 <= j < after.len() && i != j implies after[i] != after[j] by {
                let ii = if i == best { before.len() - 1 } else { i };
                let jj = if j == best { before.len() - 1 } else { j };
                assert(after[i] == before[ii]);
                assert(after[j] == before[jj]);
            }
            assert forall|j: usize| after.to_set().contains(j) <==> before.to_set().remove(idx).contains(j) by {
                if after.contains(j) {
                    let k = choose|k: int| 0 <= k < after.len() && after[k] == j;
                    let kk = if k == best { before.len() - 1 } else { k };
                    assert(before[kk] == j);
                    assert(before.contains(j));
                }
                if before.contains(j) && j != idx {
                    let k = choose|k: int| 0 <= k < before.len() && before[k] == j;
                    let kk = if k == before.len() - 1 { best as int } else { k };
                    assert(after[kk] == j);
                }
            }
            assert(after.to_set() =~= before.to_set().remove(idx));
            vstd::seq_lib::seq_to_set_is_finite(after);
            assert forall|j: usize| before.to_set().contains(j) implies nearer((idx, d), (j, #[trigger] old(self).dist_to(j))) by {
                let k = choose|k: int| 0 <= k < before.len() && before[k] == j;
                assert(nearer(old(self).entry(best as int), old(self).entry(k)));
            }
            assert(before.contains(idx));
        }
        Some((idx, d))
    }
}

} // verus!
