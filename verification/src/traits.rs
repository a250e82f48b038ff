//! Interfaces between the parts of the resampling pipeline.
use vstd::prelude::*;
use crate::number::Real;

verus! {

/// A distance between points that are given by their index.
pub trait Distance {
    /// The invariant of the distance.
    spec fn wf(&self) -> bool;

    /// The number of points.
    spec fn npoints(&self) -> nat;

    /// The distance between the points with indices `i` and `j`.
    spec fn dist(&self, i: int, j: int) -> Real;

    /// Compute the distance between the points with indices `i` and `j`.
    fn distance(&self, i: usize, j: usize) -> (d: Real)
        requires
            self.wf(),
            i < self.npoints(),
            j < self.npoints(),
        ensures
            d == self.dist(i as int, j as int),
    ;
}

/// `a` is at most as far as `b`, where each is a point with its distance from
/// a common centre. At equal distance the point with the lower index is nearer.
pub open spec fn nearer(a: (usize, Real), b: (usize, Real)) -> bool {
    a.1.key() < b.1.key() || (a.1.key() == b.1.key() && a.0 <= b.0)
}

/// `r` is what a search returns next when the points `pending` have not been
/// returned yet: the nearest of them with its distance, or nothing if none
/// is left.
pub open spec fn is_next(pending: Set<usize>, dist_to: spec_fn(usize) -> Real, r: Option<(usize, Real)>) -> bool {
    match r {
        None => pending.is_empty(),
        Some(n) => {
            &&& pending.contains(n.0)
            &&& n.1 == dist_to(n.0)
            &&& forall|j: usize| pending.contains(j) ==> nearer(n, (j, #[trigger] dist_to(j)))
        },
    }
}

/// `out` is the sequence of all points that a search returns, one after the
/// other, when the points `pending` have not been returned yet.
pub open spec fn yields(pending: Set<usize>, dist_to: spec_fn(usize) -> Real, out: Seq<(usize, Real)>) -> bool
    decreases out.len(),
{
    if out.len() == 0 {
        is_next(pending, dist_to, None)
    } else {
        is_next(pending, dist_to, Some(out[0])) && yields(pending.remove(out[0].0), dist_to, out.drop_first())
    }
}

/// What a search returns next is determined by the points that are left and
/// their distances.
pub proof fn lemma_next_is_unique(
    pending: Set<usize>,
    dist_to: spec_fn(usize) -> Real,
    a: Option<(usize, Real)>,
    b: Option<(usize, Real)>,
)
    requires
        is_next(pending, dist_to, a),
        is_next(pending, dist_to, b),
    ensures
        a == b,
{
    match (a, b) {
        (Some(x), Some(y)) => {
            assert(nearer(x, (y.0, dist_to(y.0))));
            assert(nearer(y, (x.0, dist_to(x.0))));
        },
        (Some(x), None) => {
            assert(pending.contains(x.0));
        },
        (None, Some(y)) => {
            assert(pending.contains(y.0));
        },
        (None, None) => {},
    }
}

/// Any two searches return the same sequence of points and distances for the
/// same candidates with the same distances.
pub proof fn lemma_neighbours_are_unique(
    pending: Set<usize>,
    dist_to: spec_fn(usize) -> Real,
    a: Seq<(usize, Real)>,
    b: Seq<(usize, Real)>,
)
    requires
        yields(pending, dist_to, a),
        yields(pending, dist_to, b),
    ensures
        a == b,
    decreases a.len(),
{
    if a.len() == 0 {
        if b.len() > 0 {
            lemma_next_is_unique(pending, dist_to, None, Some(b[0]));
        }
        assert(a =~= b);
    } else {
        if b.len() == 0 {
            lemma_next_is_unique(pending, dist_to, Some(a[0]), None);
        } else {
            lemma_next_is_unique(pending, dist_to, Some(a[0]), Some(b[0]));
            lemma_neighbours_are_unique(pending.remove(a[0].0), dist_to, a.drop_first(), b.drop_first());
            assert(a =~= seq![a[0]] + a.drop_first());
            assert(b =~= seq![b[0]] + b.drop_first());
        }
    }
}

/// The neighbours of a point, from the nearest to the farthest.
pub trait NeighbourIter {
    /// The invariant of the iterator.
    spec fn wf(&self) -> bool;

    /// The points that have not been returned yet.
    spec fn pending(&self) -> Set<usize>;

    /// The distance of the point `id` from the centre of the search.
    spec fn dist_to(&self, id: usize) -> Real;

    /// The nearest point that has not been returned yet, with its distance, or
    /// `None` when no point is left.
    fn next(&mut self) -> (r: Option<(usize, Real)>)
        requires
            old(self).wf(),
            old(self).pending().finite(),
        ensures
            final(self).wf(),
            final(self).pending().finite(),
            forall|id: usize| final(self).dist_to(id) == old(self).dist_to(id),
            is_next(old(self).pending(), |id: usize| old(self).dist_to(id), r),
            final(self).pending() == match r {
                None => old(self).pending(),
                Some(n) => old(self).pending().remove(n.0),
            },
    ;
}

/// `out` holds what a search returned step by step, where `left[k]` are the
/// points that had not been returned before the step number `k`.
spec fn steps(left: Seq<Set<usize>>, dist_to: spec_fn(usize) -> Real, out: Seq<(usize, Real)>) -> bool {
    &&& left.len() == out.len() + 1
    &&& forall|k: int|
        0 <= k < out.len() ==> is_next(#[trigger] left[k], dist_to, Some(out[k])) && left[k + 1] == left[k].remove(
            out[k].0,
        )
}

/// The steps of a search that has come to its end yield all its points.
proof fn lemma_steps_yield(left: Seq<Set<usize>>, dist_to: spec_fn(usize) -> Real, out: Seq<(usize, Real)>, from: int)
    requires
        steps(left, dist_to, out),
        is_next(left[out.len() as int], dist_to, None),
        0 <= from <= out.len(),
    ensures
        yields(left[from], dist_to, out.skip(from)),
    decreases out.len() - from,
{
    let rest = out.skip(from);
    if from < out.len() {
        lemma_steps_yield(left, dist_to, out, from + 1);
        assert(rest[0] == out[from]);
        assert(rest.drop_first() =~= out.skip(from + 1));
    }
}

/// All the neighbours that `neighbours` still has to return, from the nearest
/// to the farthest.
pub fn collect_neighbours<I: NeighbourIter>(neighbours: &mut I) -> (out: Vec<(usize, Real)>)
    requires
        old(neighbours).wf(),
        old(neighbours).pending().finite(),
    ensures
        yields(old(neighbours).pending(), |id: usize| old(neighbours).dist_to(id), out@),
        final(neighbours).wf(),
        final(neighbours).pending().is_empty(),
        forall|id: usize| final(neighbours).dist_to(id) == old(neighbours).dist_to(id),
{
    let ghost dist_to = |id: usize| old(neighbours).dist_to(id);
    let ghost mut left: Seq<Set<usize>> = seq![neighbours.pending()];
    let mut out: Vec<(usize, Real)> = Vec::new();
    let mut more = true;
    while more
        invariant
            neighbours.wf(),
            neighbours.pending().finite(),
            forall|id: usize| neighbours.dist_to(id) == old(neighbours).dist_to(id),
            dist_to == (|id: usize| old(neighbours).dist_to(id)),
            steps(left, dist_to, out@),
            left[0] == old(neighbours).pending(),
            left[out.len() as int] == neighbours.pending(),
            !more ==> is_next(neighbours.pending(), dist_to, None),
        decreases neighbours.pending().len(), more as int,
    {
        let ghost before = *neighbours;
        let ghost dist_before = |id: usize| before.dist_to(id);
        let ghost out_before = out@;
        let ghost left_before = left;
        match neighbours.next() {
            None => {
                more = false;
            },
            Some(n) => {
                out.push(n);
                proof {
                    left = left.push(neighbours.pending());
                    assert(is_next(before.pending(), dist_to, Some(n))) by {
                        assert(is_next(before.pending(), dist_before, Some(n)));
                        assert forall|j: usize| before.pending().contains(j) implies nearer(n, (j, #[trigger] dist_to(j))) by {
                            assert(nearer(n, (j, dist_before(j))));
                        }
                    }
                    assert forall|k: int| 0 <= k < out.len() implies is_next(#[trigger] left[k], dist_to, Some(out[k]))
                        && left[k + 1] == left[k].remove(out[k].0) by {
                        if k < out_before.len() {
                            assert(left[k] == left_before[k]);
                            assert(left[k + 1] == left_before[k + 1]);
                            assert(out[k] == out_before[k]);
                        }
                    }
                }
            },
        }
    }
    proof {
        lemma_steps_yield(left, dist_to, out@, 0);
        assert(out@.skip(0) =~= out@);
    }
    out
}

/// Nearest-neighbour search among points that are given by their index, with
/// removal of points.
pub trait NeighbourSearch: Sized {
    /// The neighbours of a point, from the nearest to the farthest.
    type Iter: NeighbourIter;

    /// The invariant of the search structure.
    spec fn wf(&self) -> bool;

    /// The number of points, removed ones included.
    spec fn npoints(&self) -> nat;

    /// The points that have not been removed.
    spec fn remaining(&self) -> Set<usize>;

    /// A search structure over the points `0..npoints`, none of them removed.
    fn new_with_dist<D: Distance>(npoints: usize, d: &D) -> (r: Self)
        requires
            d.wf(),
            d.npoints() == npoints,
        ensures
            r.wf(),
            r.npoints() == npoints,
            r.remaining() == Set::new(|i: usize| i < npoints),
    ;

    /// Remove a point: later searches do not return it.
    fn remove(&mut self, point: usize)
        requires
            old(self).wf(),
            point < old(self).npoints(),
        ensures
            final(self).wf(),
            final(self).npoints() == old(self).npoints(),
            final(self).remaining() == old(self).remaining().remove(point),
    ;

    /// The points that remain, other than `point`, from the nearest to
    /// `point` to the farthest.
    fn nearest_in<D: Distance>(&mut self, point: usize, d: &D) -> (it: Self::Iter)
        requires
            old(self).wf(),
            point < old(self).npoints(),
            d.wf(),
            d.npoints() == old(self).npoints(),
        ensures
            final(self).wf(),
            final(self).npoints() == old(self).npoints(),
            final(self).remaining() == old(self).remaining(),
            it.wf(),
            it.pending().finite(),
            it.pending() == old(self).remaining().remove(point),
            forall|j: usize| it.pending().contains(j) ==> #[trigger] it.dist_to(j) == d.dist(j as int, point as int),
    ;
}

} // verus!
