//! Cells: a seed event and its nearest neighbours.
use vstd::prelude::*;
use crate::event::{pool_wf, Event};
use crate::number::{is_rounded, is_rounded_quotient, size_of, Real, FRACTION_STEPS, ROUNDING_STEPS};
use vstd::arithmetic::power2::pow2;
use crate::sorting::sort_indices;
use crate::traits::{nearer, NeighbourIter};

verus! {

/// The sum of the central weights of the first `n` members, added in the
/// order of the members.
pub open spec fn partial_sum(events: Seq<Event>, members: Seq<usize>, n: int) -> Real
    decreases n,
{
    if n <= 1 {
        events[members[0] as int].central()
    } else {
        partial_sum(events, members, n - 1).spec_add(events[members[n - 1] as int].central())
    }
}

/// The exact sum of the central weights of the first `n` members, in units
/// of the smallest positive number.
pub open spec fn exact_sum(events: Seq<Event>, members: Seq<usize>, n: int) -> int
    decreases n,
{
    if n <= 0 {
        0
    } else {
        exact_sum(events, members, n - 1) + events[members[n - 1] as int].central().units()
    }
}

/// The sum of the sizes of the central weights of the first `n` members, in
/// units of the smallest positive number.
pub open spec fn size_sum(events: Seq<Event>, members: Seq<usize>, n: int) -> int
    decreases n,
{
    if n <= 0 {
        0
    } else {
        size_sum(events, members, n - 1) + size_of(events[members[n - 1] as int].central().units())
    }
}

/// The number of `s` units is the sum of the central weights of the first
/// `n` members up to rounding: each of the `n - 1` additions is off by at
/// most one part in two to the power 53 of the sizes added so far.
pub open spec fn sum_near(s: int, events: Seq<Event>, members: Seq<usize>, n: int) -> bool {
    ROUNDING_STEPS * size_of(s - exact_sum(events, members, n)) <= 2 * (n - 1) * size_sum(events, members, n)
}

/// The members of a cell have the same sum of central weights in the pool
/// `after` as in the pool `before`, up to rounding: the difference is at most
/// one part in two to the power 52 of the sizes of the weights before and
/// half a unit, for each member.
pub open spec fn sum_is_kept(before: Seq<Event>, after: Seq<Event>, members: Seq<usize>) -> bool {
    let n = members.len() as int;
    ROUNDING_STEPS * size_of(exact_sum(after, members, n) - exact_sum(before, members, n)) <= 2 * n * size_sum(
        before,
        members,
        n,
    ) + n * FRACTION_STEPS
}

/// The exact sum of the central weights of the first `n` events of a pool,
/// in units of the smallest positive number.
pub open spec fn pool_sum(events: Seq<Event>, n: int) -> int
    decreases n,
{
    if n <= 0 {
        0
    } else {
        pool_sum(events, n - 1) + events[n - 1].central().units()
    }
}

/// The sum of the sizes of the central weights of the first `n` events of a
/// pool, in units of the smallest positive number.
pub open spec fn pool_size_sum(events: Seq<Event>, n: int) -> int
    decreases n,
{
    if n <= 0 {
        0
    } else {
        pool_size_sum(events, n - 1) + size_of(events[n - 1].central().units())
    }
}

/// The exact sum of the central weights of those of the first `n` events of
/// a pool that are in `chosen`, in units of the smallest positive number.
pub open spec fn chosen_sum(events: Seq<Event>, chosen: Set<usize>, n: int) -> int
    decreases n,
{
    if n <= 0 {
        0
    } else {
        chosen_sum(events, chosen, n - 1) + if chosen.contains((n - 1) as usize) {
            events[n - 1].central().units()
        } else {
            0
        }
    }
}

/// The pool `after` has the same sum of central weights as the pool
/// `before`, up to rounding: the difference is at most one part in two to
/// the power 52 of the sizes of the weights of `members` before and half a
/// unit, for each of them.
pub open spec fn total_is_kept(before: Seq<Event>, after: Seq<Event>, members: Seq<usize>) -> bool {
    let n = members.len() as int;
    ROUNDING_STEPS * size_of(pool_sum(after, after.len() as int) - pool_sum(before, before.len() as int)) <= 2 * n
        * size_sum(before, members, n) + n * FRACTION_STEPS
}

/// The number of events with negative central weight among the first `n`
/// members.
pub open spec fn count_negative(events: Seq<Event>, members: Seq<usize>, n: int) -> int
    decreases n,
{
    if n <= 0 {
        0
    } else {
        count_negative(events, members, n - 1) + if events[members[n - 1] as int].central().key() < 0 {
            1int
        } else {
            0int
        }
    }
}

/// The distance `d` does not exceed the largest cell size, if there is one.
pub open spec fn within(max_cell_size: Option<Real>, d: Real) -> bool {
    match max_cell_size {
        None => true,
        Some(max) => d.key() <= max.key(),
    }
}

/// The members of a cell in the order of their indices.
pub open spec fn ascending(members: Seq<usize>) -> Seq<usize> {
    members.sort_by(|a: usize, b: usize| a <= b)
}

/// The sum of the weights number `k` of the first `n` events of `order`,
/// added in this order.
pub open spec fn component_sum(events: Seq<Event>, order: Seq<usize>, k: int, n: int) -> Real
    decreases n,
{
    if n <= 1 {
        events[order[0] as int].weights[k]
    } else {
        component_sum(events, order, k, n - 1).spec_add(events[order[n - 1] as int].weights[k])
    }
}

/// The number `x` times the inverse `inv` of the number of members. An
/// inverse that is zero or infinite, which no number of members has, leaves
/// `x` as it is.
pub open spec fn normalised(x: Real, inv: Real) -> Real {
    if inv.is_finite() && inv.key() != 0 {
        x.spec_mul(inv)
    } else {
        x
    }
}

/// The mean of the weights of the events `members`: for each weight, the sum
/// over the events in the order of their indices, times the inverse of their
/// number.
pub open spec fn mean_weights(events: Seq<Event>, members: Seq<usize>) -> Seq<Real> {
    let order = ascending(members);
    let inv = Real::spec_one().spec_div(Real::spec_from_count(members.len() as usize));
    Seq::new(
        events[order[0] as int].weights.len() as nat,
        |k: int| normalised(component_sum(events, order, k, members.len() as int), inv),
    )
}

/// The events `members` have finite weights, and all the same number of
/// them.
pub open spec fn uniform(events: Seq<Event>, members: Seq<usize>) -> bool {
    forall|j: int|
        0 <= j < members.len() ==> (#[trigger] members[j]) < events.len() && events[members[j] as int].finite()
            && events[members[j] as int].weights.len() == events[members[0] as int].weights.len()
}

/// A copy of the numbers.
fn copy_of(v: &Vec<Real>) -> (r: Vec<Real>)
    ensures
        r@ == v@,
{
    let mut r: Vec<Real> = Vec::new();
    let mut k: usize = 0;
    while k < v.len()
        invariant
            k <= v.len(),
            r@ == v@.take(k as int),
        decreases v.len() - k,
    {
        r.push(v[k]);
        assert(r@ =~= v@.take(k + 1));
        k += 1;
    }
    assert(v@.take(v.len() as int) =~= v@);
    r
}

proof fn lemma_component_sum_congruence(e1: Seq<Event>, e2: Seq<Event>, order: Seq<usize>, k: int, n: int)
    requires
        1 <= n <= order.len(),
        forall|j: int| 0 <= j < order.len() ==> e1[(#[trigger] order[j]) as int].weights@ == e2[order[j] as int].weights@,
    ensures
        component_sum(e1, order, k, n) == component_sum(e2, order, k, n),
    decreases n,
{
    assert(e1[order[n - 1] as int].weights@ == e2[order[n - 1] as int].weights@);
    if n > 1 {
        lemma_component_sum_congruence(e1, e2, order, k, n - 1);
    } else {
        assert(e1[order[0] as int].weights@ == e2[order[0] as int].weights@);
    }
}

/// The mean of the weights of some events depends on the weights of these
/// events only.
pub proof fn lemma_mean_weights_congruence(e1: Seq<Event>, e2: Seq<Event>, members: Seq<usize>)
    requires
        members.len() >= 1,
        forall|j: int| 0 <= j < members.len() ==> e1[(#[trigger] members[j]) as int].weights@ == e2[members[j] as int].weights@,
    ensures
        mean_weights(e1, members) == mean_weights(e2, members),
{
    let leq = |a: usize, b: usize| a <= b;
    let order = ascending(members);
    lemma_ascending(members);
    assert forall|j: int| 0 <= j < order.len() implies e1[(#[trigger] order[j]) as int].weights@ == e2[order[j] as int].weights@ by {
        assert(members.contains(order[j]));
        let i = choose|i: int| 0 <= i < members.len() && members[i] == order[j];
        assert(e1[members[i] as int].weights@ == e2[members[i] as int].weights@);
    }
    let n = members.len() as int;
    assert(e1[order[0] as int].weights@ == e2[order[0] as int].weights@);
    assert forall|k: int| component_sum(e1, order, k, n) == component_sum(e2, order, k, n) by {
        lemma_component_sum_congruence(e1, e2, order, k, n);
    }
    assert(mean_weights(e1, members) =~= mean_weights(e2, members));
}

/// The members in ascending order are the same members.
pub proof fn lemma_ascending(members: Seq<usize>)
    ensures
        ascending(members).len() == members.len(),
        ascending(members).to_multiset() == members.to_multiset(),
        forall|i: int, j: int| 0 <= i < j < members.len() ==> ascending(members)[i] <= ascending(members)[j],
        forall|j: int| 0 <= j < members.len() ==> members.contains(#[trigger] ascending(members)[j]),
        forall|j: int| 0 <= j < members.len() ==> ascending(members).contains(#[trigger] members[j]),
{
    broadcast use vstd::seq_lib::group_to_multiset_ensures;

    let leq = |a: usize, b: usize| a <= b;
    assert(vstd::relations::total_ordering(leq));
    members.lemma_sort_by_ensures(leq);
    let order = ascending(members);
    vstd::seq_lib::to_multiset_len(order);
    vstd::seq_lib::to_multiset_len(members);
    assert forall|i: int, j: int| 0 <= i < j < members.len() implies order[i] <= order[j] by {
        assert(leq(order[i], order[j]));
    }
    assert forall|j: int| 0 <= j < members.len() implies members.contains(#[trigger] order[j]) by {
        assert(order.contains(order[j]));
        assert(members.to_multiset().count(order[j]) > 0);
    }
    assert forall|j: int| 0 <= j < members.len() implies order.contains(#[trigger] members[j]) by {
        assert(members.contains(members[j]));
        assert(order.to_multiset().count(members[j]) > 0);
    }
}

/// A cell
///
/// See [arXiv:2109.07851](https://arxiv.org/abs/2109.07851) for details
#[derive(Debug)]
pub struct Cell {
    members: Vec<usize>,
    radius: Real,
    weight_sum: Real,
    nneg: usize,
}

impl Cell {
    /// The indices of the events in the cell, the seed first, then the
    /// neighbours in the order in which they were added.
    pub closed spec fn members(&self) -> Seq<usize> {
        self.members@
    }

    /// The distance from the seed to the last event that was added.
    pub closed spec fn spec_radius(&self) -> Real {
        self.radius
    }

    /// The sum of the central weights as of the construction of the cell.
    pub closed spec fn spec_weight_sum(&self) -> Real {
        self.weight_sum
    }

    /// The number of members with negative central weight as of the
    /// construction of the cell.
    pub closed spec fn spec_nneg(&self) -> usize {
        self.nneg
    }

    /// The sum of weights of the cell is the sum of the central weights of
    /// its members in the pool `events` up to rounding, see [`sum_near`].
    /// Nothing is said of a sum that is infinite, nor of a cell with more
    /// than two to the power 52 members.
    pub open spec fn sum_is_rounded(&self, events: Seq<Event>) -> bool {
        self.spec_weight_sum().is_finite() && self.members().len() <= FRACTION_STEPS ==> sum_near(
            self.spec_weight_sum().units(),
            events,
            self.members(),
            self.members().len() as int,
        )
    }

    /// The cell `self` is the one that grows from `seed` over the pool
    /// `events`, when the candidates are `pending` with distances `dist_to`.
    ///
    /// The neighbours are candidates in ascending order of distance, no nearer
    /// candidate is left out, each was added while the sum of weights was still
    /// negative and lies within the largest cell size. Growth stopped because
    /// the sum is no longer negative, or else because every other candidate is
    /// too far away: there may be none.
    pub open spec fn grown_from(
        &self,
        events: Seq<Event>,
        seed: usize,
        pending: Set<usize>,
        dist_to: spec_fn(usize) -> Real,
        max_cell_size: Option<Real>,
    ) -> bool {
        let m = self.members();
        &&& m.len() >= 1
        &&& m[0] == seed
        &&& m.no_duplicates()
        &&& forall|j: int| 1 <= j < m.len() ==> pending.contains(#[trigger] m[j])
        &&& forall|i: int, j: int|
            1 <= i < j < m.len() ==> nearer((#[trigger] m[i], dist_to(m[i])), (#[trigger] m[j], dist_to(m[j])))
        &&& forall|j: int, p: usize|
            1 <= j < m.len() && pending.contains(p) && !m.contains(p) ==> nearer(
                (#[trigger] m[j], dist_to(m[j])),
                (p, #[trigger] dist_to(p)),
            )
        &&& forall|j: int| 1 <= j < m.len() ==> (#[trigger] partial_sum(events, m, j)).key() < 0
        &&& forall|j: int| 1 <= j < m.len() ==> within(max_cell_size, dist_to(#[trigger] m[j]))
        &&& self.spec_weight_sum() == partial_sum(events, m, m.len() as int)
        &&& self.spec_radius() == if m.len() == 1 {
            Real::spec_zero()
        } else {
            dist_to(m[m.len() - 1])
        }
        &&& (self.spec_weight_sum().key() < 0 ==> forall|p: usize|
            pending.contains(p) && !m.contains(p) ==> !within(max_cell_size, #[trigger] dist_to(p)))
    }

    /// Construct a new cell from the given `events` with
    /// `events[seed_idx]` as seed. Neighbours are taken from `neighbours`, from
    /// the nearest on, until the sum of central weights is no longer negative,
    /// the next neighbour is farther away than `max_cell_size`, or no
    /// neighbour is left.
    pub fn new<I: NeighbourIter>(
        events: &[Event],
        seed_idx: usize,
        neighbours: &mut I,
        max_cell_size: Option<Real>,
    ) -> (cell: Cell)
        requires
            seed_idx < events.len(),
            events[seed_idx as int].finite(),
            events[seed_idx as int].central().key() < 0,
            old(neighbours).wf(),
            old(neighbours).pending().finite(),
            !old(neighbours).pending().contains(seed_idx),
            forall|p: usize| #[trigger] old(neighbours).pending().contains(p) ==> p < events.len() && events[p as int].finite(),
        ensures
            cell.grown_from(
                events@,
                seed_idx,
                old(neighbours).pending(),
                |p: usize| old(neighbours).dist_to(p),
                max_cell_size,
            ),
            cell.spec_weight_sum().wf(),
            cell.sum_is_rounded(events@),
            cell.spec_nneg() == count_negative(events@, cell.members(), cell.members().len() as int),
            forall|j: int| 0 <= j < cell.members().len() ==> (#[trigger] cell.members()[j]) < events.len(),
            final(neighbours).wf(),
            final(neighbours).pending().finite(),
            final(neighbours).pending().subset_of(old(neighbours).pending()),
            forall|p: usize| final(neighbours).dist_to(p) == old(neighbours).dist_to(p),
    {
        let ghost pending0 = neighbours.pending();
        let ghost dist_to = |p: usize| old(neighbours).dist_to(p);
        let mut weight_sum = events[seed_idx].weight();
        let mut members: Vec<usize> = Vec::new();
        members.push(seed_idx);
        let mut radius = Real::zero();
        let mut nneg: usize = 1;
        assert(count_negative(events@, members@, 1) == 1) by {
            assert(count_negative(events@, members@, 0) == 0);
        }
        assert(sum_near(weight_sum.units(), events@, members@, 1)) by {
            assert(exact_sum(events@, members@, 0) == 0);
            assert(exact_sum(events@, members@, 1) == weight_sum.units());
        }
        let mut growing = weight_sum.is_negative();
        while growing
            invariant
                nneg == count_negative(events@, members@, members.len() as int),
                nneg <= members.len(),
                seed_idx < events.len(),
                !pending0.contains(seed_idx),
                forall|p: usize| #[trigger] pending0.contains(p) ==> p < events.len() && events[p as int].finite(),
                dist_to == (|p: usize| old(neighbours).dist_to(p)),
                neighbours.wf(),
                neighbours.pending().finite(),
                neighbours.pending().subset_of(pending0),
                forall|p: usize| neighbours.dist_to(p) == old(neighbours).dist_to(p),
                members.len() >= 1,
                members[0] == seed_idx,
                members@.no_duplicates(),
                forall|j: int| 1 <= j < members.len() ==> pending0.contains(#[trigger] members[j]),
                forall|j: int| 0 <= j < members.len() ==> !neighbours.pending().contains(#[trigger] members[j]),
                forall|i: int, j: int|
                    1 <= i < j < members.len() ==> nearer(
                        (#[trigger] members[i], dist_to(members[i])),
                        (#[trigger] members[j], dist_to(members[j])),
                    ),
                forall|j: int, p: usize|
                    1 <= j < members.len() && pending0.contains(p) && !members@.contains(p) ==> nearer(
                        (#[trigger] members[j], dist_to(members[j])),
                        (p, #[trigger] dist_to(p)),
                    ),
                forall|j: int| 1 <= j < members.len() ==> (#[trigger] partial_sum(events@, members@, j)).key() < 0,
                forall|j: int| 1 <= j < members.len() ==> within(max_cell_size, dist_to(#[trigger] members[j])),
                weight_sum == partial_sum(events@, members@, members.len() as int),
                weight_sum.wf(),
                weight_sum.is_finite() && members.len() <= FRACTION_STEPS ==> sum_near(
                    weight_sum.units(),
                    events@,
                    members@,
                    members.len() as int,
                ),
                radius == if members.len() == 1 {
                    Real::spec_zero()
                } else {
                    dist_to(members[members.len() - 1])
                },
                growing ==> weight_sum.key() < 0,
                growing ==> forall|p: usize|
                    pending0.contains(p) && !members@.contains(p) ==> neighbours.pending().contains(p),
                !growing && weight_sum.key() < 0 ==> forall|p: usize|
                    pending0.contains(p) && !members@.contains(p) ==> !within(max_cell_size, #[trigger] dist_to(p)),
            decreases neighbours.pending().len(), growing as int,
        {
            let ghost pending_before = neighbours.pending();
            let ghost before_next = *neighbours;
            let ghost dist_before = |id: usize| before_next.dist_to(id);
            match neighbours.next() {
                None => {
                    growing = false;
                },
                Some((next_idx, dist)) => {
                    let beyond = match max_cell_size {
                        Some(max) => max.lt(dist),
                        None => false,
                    };
                    if beyond {
                        growing = false;
                        proof {
                            assert forall|p: usize| pending0.contains(p) && !members@.contains(p) implies !within(
                                max_cell_size,
                                #[trigger] dist_to(p),
                            ) by {
                                assert(pending_before.contains(p));
                                assert(nearer((next_idx, dist), (p, dist_before(p))));
                            }
                        }
                    } else {
                        let ghost before = members@;
                        let ghost len = members.len() as int;
                        proof {
                            assert(pending_before.contains(next_idx));
                            assert(!before.contains(next_idx)) by {
                                if before.contains(next_idx) {
                                    let k = choose|k: int| 0 <= k < before.len() && before[k] == next_idx;
                                    assert(!pending_before.contains(before[k]));
                                }
                            }
                            assert(dist == dist_to(next_idx));
                        }
                        let next_weight = events[next_idx].weight();
                        let ghost sum_before = weight_sum;
                        weight_sum = weight_sum.add(next_weight);
                        members.push(next_idx);
                        proof {
                            if weight_sum.is_finite() && len + 1 <= FRACTION_STEPS {
                                lemma_sums_prefix(events@, before, members@, len);
                                lemma_sum_bound(events@, before, len);
                                lemma_sum_step(
                                    sum_before.units(),
                                    next_weight.units(),
                                    weight_sum.units(),
                                    exact_sum(events@, before, len),
                                    size_sum(events@, before, len),
                                    len,
                                );
                            }
                        }
                        if next_weight.is_negative() {
                            assert(nneg <= len && members.len() == len + 1);
                            nneg += 1;
                        }
                        radius = dist;
                        growing = weight_sum.is_negative();
                        proof {
                            let after = members@;
                            assert(after == before.push(next_idx));
                            lemma_count_negative_prefix(events@, before, after, len);
                            assert forall|j: int| 1 <= j <= len + 1 implies #[trigger] partial_sum(events@, after, j)
                                == partial_sum(events@, before, j) || j == len + 1 by {
                                if j <= len {
                                    lemma_partial_sum_prefix(events@, before, after, j);
                                }
                            }
                            lemma_partial_sum_prefix(events@, before, after, len);
                            assert(partial_sum(events@, after, len + 1) == partial_sum(events@, after, len).spec_add(
                                events@[after[len] as int].central(),
                            ));
                            assert forall|i: int, j: int| 1 <= i < j < after.len() implies nearer(
                                (#[trigger] after[i], dist_to(after[i])),
                                (#[trigger] after[j], dist_to(after[j])),
                            ) by {
                                if j == len {
                                    assert(before[i] == after[i]);
                                    assert(!before.contains(next_idx));
                                }
                            }
                            assert forall|j: int, p: usize|
                                1 <= j < after.len() && pending0.contains(p) && !after.contains(p) implies nearer(
                                (#[trigger] after[j], dist_to(after[j])),
                                (p, #[trigger] dist_to(p)),
                            ) by {
                                assert(!before.contains(p)) by {
                                    if before.contains(p) {
                                        let k = choose|k: int| 0 <= k < before.len() && before[k] == p;
                                        assert(after[k] == p);
                                    }
                                }
                                if j == len {
                                    assert(pending_before.contains(p));
                                    assert(nearer((next_idx, dist), (p, dist_before(p))));
                                } else {
                                    assert(before[j] == after[j]);
                                }
                            }
                            assert forall|p: usize| pending0.contains(p) && !after.contains(p) implies neighbours.pending().contains(
                                p,
                            ) by {
                                assert(!before.contains(p)) by {
                                    if before.contains(p) {
                                        let k = choose|k: int| 0 <= k < before.len() && before[k] == p;
                                        assert(after[k] == p);
                                    }
                                }
                                assert(after[len] == next_idx);
                                assert(p != next_idx);
                            }
                            assert forall|j: int| 1 <= j < after.len() implies (#[trigger] partial_sum(
                                events@,
                                after,
                                j,
                            )).key() < 0 by {
                                lemma_partial_sum_prefix(events@, before, after, j);
                            }
                        }
                    }
                },
            }
        }
        Cell { members, radius, weight_sum, nneg }
    }

    /// The weight that [`Cell::resample`] gives to each member: the sum of
    /// central weights divided by the number of members.
    pub open spec fn mean(&self) -> Real {
        self.spec_weight_sum().spec_div(Real::spec_from_count(self.members().len() as usize))
    }

    /// Resample
    ///
    /// This redistributes weights in such a way that all weights have
    /// the same sign.
    ///
    /// The current implementation sets all central weights to the mean weight
    /// over the cell.
    ///
    /// If the cell was grown over this pool and neither its sum of weights
    /// nor the mean is infinite, the sum of the central weights of the
    /// members, and with it the sum over the pool, is kept up to rounding.
    pub fn resample(&self, events: &mut Vec<Event>)
        requires
            pool_wf(old(events)@),
            self.members().len() >= 1,
            forall|j: int| 0 <= j < self.members().len() ==> (#[trigger] self.members()[j]) < old(events).len(),
            self.spec_weight_sum().wf(),
        ensures
            final(events).len() == old(events).len(),
            pool_wf(final(events)@),
            self.mean().wf(),
            self.spec_weight_sum().key() >= 0 ==> self.mean().key() >= 0,
            forall|i: int|
                0 <= i < old(events).len() ==> {
                    &&& (#[trigger] final(events)[i]).id == old(events)[i].id
                    &&& final(events)[i].outgoing == old(events)[i].outgoing
                    &&& final(events)[i].weights@ == if self.members().contains(i as usize) {
                        old(events)[i].weights@.update(0, self.mean())
                    } else {
                        old(events)[i].weights@
                    }
                },
            self.sum_is_rounded(old(events)@) && self.spec_weight_sum().is_finite() && self.mean().is_finite()
                && self.members().len() <= FRACTION_STEPS ==> sum_is_kept(
                old(events)@,
                final(events)@,
                self.members(),
            ),
            self.sum_is_rounded(old(events)@) && self.spec_weight_sum().is_finite() && self.mean().is_finite()
                && self.members().len() <= FRACTION_STEPS && self.members().no_duplicates() ==> total_is_kept(
                old(events)@,
                final(events)@,
                self.members(),
            ),
    {
        let n = self.members.len();
        let count = Real::from_count(n);
        let avg_wt = self.weight_sum.div(count);
        proof {
            if self.weight_sum.is_finite() && avg_wt.is_finite() && n <= FRACTION_STEPS {
                assert(is_rounded_quotient(self.weight_sum.units(), n * pow2(1074), avg_wt.units()));
            }
        }
        let mut k: usize = 0;
        while k < n
            invariant
                k <= n,
                n == self.members.len(),
                avg_wt == self.mean(),
                avg_wt.wf(),
                events.len() == old(events).len(),
                pool_wf(old(events)@),
                pool_wf(events@),
                forall|j: int| 0 <= j < self.members.len() ==> (#[trigger] self.members[j]) < events.len(),
                forall|i: int|
                    0 <= i < events.len() ==> {
                        &&& (#[trigger] events[i]).id == old(events)[i].id
                        &&& events[i].outgoing == old(events)[i].outgoing
                        &&& events[i].weights@ == if self.members@.take(k as int).contains(i as usize) {
                            old(events)[i].weights@.update(0, avg_wt)
                        } else {
                            old(events)[i].weights@
                        }
                    },
            decreases n - k,
        {
            let idx = self.members[k];
            let ghost before = events@;
            assert(events[idx as int].wf());
            events[idx].weights[0] = avg_wt;
            proof {
                let prefix = self.members@.take(k as int);
                let longer = self.members@.take(k + 1);
                assert(longer == prefix.push(idx));
                assert forall|i: int| 0 <= i < events.len() implies {
                    &&& (#[trigger] events[i]).id == old(events)[i].id
                    &&& events[i].outgoing == old(events)[i].outgoing
                    &&& events[i].weights@ == if longer.contains(i as usize) {
                        old(events)[i].weights@.update(0, avg_wt)
                    } else {
                        old(events)[i].weights@
                    }
                } by {
                    if i == idx {
                        assert(longer[k as int] == idx);
                        assert(before[i].weights@ == old(events)[i].weights@ || before[i].weights@ == old(
                            events,
                        )[i].weights@.update(0, avg_wt));
                        assert(events[i].weights@ =~= old(events)[i].weights@.update(0, avg_wt));
                    } else {
                        assert(events[i] == before[i]);
                        if prefix.contains(i as usize) {
                            let j = choose|j: int| 0 <= j < prefix.len() && prefix[j] == i as usize;
                            assert(longer[j] == i as usize);
                        }
                        if longer.contains(i as usize) {
                            let j = choose|j: int| 0 <= j < longer.len() && longer[j] == i as usize;
                            assert(prefix[j] == i as usize);
                        }
                    }
                }
                assert forall|i: int| 0 <= i < events.len() implies (#[trigger] events[i]).wf() by {
                    assert(old(events)[i].wf());
                    if i == idx {
                        assert forall|w: int| 0 <= w < events[i].weights.len() implies (#[trigger] events[i].weights[w]).wf() by {
                            if w > 0 {
                                assert(events[i].weights[w] == old(events)[i].weights[w]);
                            }
                        }
                    } else {
                        assert(before[i].wf());
                    }
                }
            }
            k += 1;
        }
        assert(self.members@.take(n as int) == self.members@);
        proof {
            if self.sum_is_rounded(old(events)@) && self.weight_sum.is_finite() && avg_wt.is_finite() && n
                <= FRACTION_STEPS {
                let m = self.members@;
                assert forall|j: int| 0 <= j < n implies (#[trigger] m[j]) < events.len() && events[m[j] as int].central()
                    == avg_wt by {
                    assert(m.contains(m[j]));
                    assert(events[m[j] as int].weights@ == old(events)[m[j] as int].weights@.update(0, avg_wt));
                    assert(old(events)[m[j] as int].wf());
                }
                lemma_equal_weights(events@, m, n as int, avg_wt);
                lemma_sum_bound(old(events)@, m, n as int);
                lemma_mean_is_near(
                    self.weight_sum.units(),
                    avg_wt.units(),
                    exact_sum(old(events)@, m, n as int),
                    size_sum(old(events)@, m, n as int),
                    n as int,
                );
                if m.no_duplicates() {
                    assert forall|i: int| 0 <= i < events.len() && !m.contains(i as usize) implies (#[trigger] events[i]).central()
                        == old(events)[i].central() by {
                        assert(events[i].weights@ == old(events)[i].weights@);
                    }
                    lemma_total_changes_in_members(old(events)@, events@, m);
                }
            }
        }
    }

    /// Resample all weights
    ///
    /// This sets the weights of all events in the cell to the mean of their
    /// weights over the cell, weight by weight. The sums are taken in the
    /// order of the indices of the events.
    pub fn resample_multiweight(&self, events: &mut Vec<Event>)
        requires
            pool_wf(old(events)@),
            self.members().len() >= 1,
            uniform(old(events)@, self.members()),
        ensures
            final(events).len() == old(events).len(),
            pool_wf(final(events)@),
            forall|i: int|
                0 <= i < old(events).len() ==> {
                    &&& (#[trigger] final(events)[i]).id == old(events)[i].id
                    &&& final(events)[i].outgoing == old(events)[i].outgoing
                    &&& final(events)[i].weights@ == if self.members().contains(i as usize) {
                        mean_weights(old(events)@, self.members())
                    } else {
                        old(events)[i].weights@
                    }
                },
    {
        let n = self.members.len();
        let ghost members = self.members@;
        let ghost before = events@;
        let mut order: Vec<usize> = Vec::new();
        let mut j: usize = 0;
        while j < n
            invariant
                j <= n,
                n == self.members.len(),
                order@ == self.members@.take(j as int),
            decreases n - j,
        {
            order.push(self.members[j]);
            assert(order@ =~= self.members@.take(j + 1));
            j += 1;
        }
        assert(self.members@.take(n as int) =~= self.members@);
        sort_indices(&mut order);
        proof {
            lemma_ascending(members);
            let leq = |a: usize, b: usize| a <= b;
            assert(vstd::relations::total_ordering(leq));
            assert(vstd::relations::sorted_by(order@, leq));
            members.lemma_sort_by_ensures(leq);
            vstd::seq_lib::lemma_sorted_unique(order@, ascending(members), leq);
            assert(order@ == ascending(members));
            assert forall|t: int| 0 <= t < order.len() implies (#[trigger] order[t]) < events.len() && events[order[t] as int].finite()
                && events[order[t] as int].weights.len() == events[members[0] as int].weights.len() by {
                assert(members.contains(order[t]));
                let i = choose|i: int| 0 <= i < members.len() && members[i] == order[t];
                assert(members[i] < events.len());
            }
        }
        let first = order[0];
        let nw = events[first].weights.len();
        let mut avg_wts = copy_of(&events[first].weights);
        let mut j: usize = 1;
        while j < n
            invariant
                1 <= j <= n,
                n == order.len(),
                events@ == before,
                nw == avg_wts.len(),
                nw == before[members[0] as int].weights.len(),
                forall|t: int|
                    0 <= t < order.len() ==> (#[trigger] order[t]) < before.len() && before[order[t] as int].finite()
                        && before[order[t] as int].weights.len() == nw,
                forall|k: int| 0 <= k < nw ==> avg_wts[k] == component_sum(before, order@, k, j as int),
                forall|k: int| 0 <= k < nw ==> (#[trigger] avg_wts[k]).wf(),
            decreases n - j,
        {
            let idx = order[j];
            assert(before[idx as int].finite());
            let mut k: usize = 0;
            while k < nw
                invariant
                    k <= nw,
                    1 <= j < n,
                    n == order.len(),
                    idx == order[j as int],
                    idx < events.len(),
                    events@ == before,
                    nw == avg_wts.len(),
                    before[idx as int].finite(),
                    before[idx as int].weights.len() == nw,
                    forall|c: int| 0 <= c < k ==> avg_wts[c] == component_sum(before, order@, c, j + 1),
                    forall|c: int| k <= c < nw ==> avg_wts[c] == component_sum(before, order@, c, j as int),
                    forall|c: int| 0 <= c < nw ==> (#[trigger] avg_wts[c]).wf(),
                decreases nw - k,
            {
                let w = events[idx].weights[k];
                assert(before[idx as int].weights[k as int].is_finite());
                avg_wts[k] = avg_wts[k].add(w);
                k += 1;
            }
            j += 1;
        }
        let inv_norm = Real::one().div(Real::from_count(n));
        if inv_norm.finite() && !inv_norm.is_zero() {
            let mut k: usize = 0;
            while k < nw
                invariant
                    k <= nw,
                    nw == avg_wts.len(),
                    inv_norm.is_finite(),
                    inv_norm.key() != 0,
                    forall|c: int|
                        0 <= c < k ==> avg_wts[c] == normalised(component_sum(before, order@, c, n as int), inv_norm),
                    forall|c: int| k <= c < nw ==> avg_wts[c] == component_sum(before, order@, c, n as int),
                    forall|c: int| 0 <= c < nw ==> (#[trigger] avg_wts[c]).wf(),
                decreases nw - k,
            {
                avg_wts[k] = avg_wts[k].mul(inv_norm);
                k += 1;
            }
        }
        proof {
            assert(avg_wts@ =~= mean_weights(before, members));
        }
        let mut j: usize = 0;
        while j < n
            invariant
                j <= n,
                n == self.members.len(),
                members == self.members@,
                events.len() == before.len(),
                before == old(events)@,
                pool_wf(before),
                pool_wf(events@),
                avg_wts@ == mean_weights(before, members),
                avg_wts.len() > 0,
                forall|c: int| 0 <= c < avg_wts.len() ==> (#[trigger] avg_wts[c]).wf(),
                forall|t: int| 0 <= t < members.len() ==> (#[trigger] members[t]) < before.len(),
                forall|i: int|
                    0 <= i < events.len() ==> {
                        &&& (#[trigger] events[i]).id == before[i].id
                        &&& events[i].outgoing == before[i].outgoing
                        &&& events[i].weights@ == if members.take(j as int).contains(i as usize) {
                            mean_weights(before, members)
                        } else {
                            before[i].weights@
                        }
                    },
            decreases n - j,
        {
            let idx = self.members[j];
            let ghost current = events@;
            assert(members[j as int] < before.len());
            let copy = copy_of(&avg_wts);
            events[idx].weights = copy;
            proof {
                let prefix = members.take(j as int);
                let longer = members.take(j + 1);
                assert(longer == prefix.push(idx));
                assert forall|i: int| 0 <= i < events.len() implies {
                    &&& (#[trigger] events[i]).id == before[i].id
                    &&& events[i].outgoing == before[i].outgoing
                    &&& events[i].weights@ == if longer.contains(i as usize) {
                        mean_weights(before, members)
                    } else {
                        before[i].weights@
                    }
                } by {
                    if i == idx {
                        assert(longer[j as int] == idx);
                    } else {
                        assert(events[i] == current[i]);
                        if prefix.contains(i as usize) {
                            let t = choose|t: int| 0 <= t < prefix.len() && prefix[t] == i as usize;
                            assert(longer[t] == i as usize);
                        }
                        if longer.contains(i as usize) {
                            let t = choose|t: int| 0 <= t < longer.len() && longer[t] == i as usize;
                            assert(prefix[t] == i as usize);
                        }
                    }
                }
                assert forall|i: int| 0 <= i < events.len() implies (#[trigger] events[i]).wf() by {
                    if i != idx {
                        assert(current[i].wf());
                    }
                }
            }
            j += 1;
        }
        assert(members.take(n as int) == members);
    }

    /// Number of events in the cell that had a negative weight when the cell
    /// was made
    pub fn nneg(&self) -> (n: usize)
        ensures
            n == self.spec_nneg(),
    {
        self.nneg
    }

    /// Number of negative-weight events in cell
    pub fn nneg_weights(&self, events: &[Event]) -> (n: usize)
        requires
            pool_wf(events@),
            forall|j: int| 0 <= j < self.members().len() ==> (#[trigger] self.members()[j]) < events.len(),
        ensures
            n == count_negative(events@, self.members(), self.members().len() as int),
    {
        let len = self.members.len();
        assert forall|j: int| 0 <= j < self.members.len() implies (#[trigger] self.members[j]) < events.len() by {
            assert(self.members()[j] < events.len());
        }
        let mut n: usize = 0;
        let mut k: usize = 0;
        while k < len
            invariant
                k <= len,
                len == self.members.len(),
                pool_wf(events@),
                forall|j: int| 0 <= j < self.members.len() ==> (#[trigger] self.members[j]) < events.len(),
                n == count_negative(events@, self.members@, k as int),
                n <= k,
            decreases len - k,
        {
            let idx = self.members[k];
            assert(events[idx as int].wf());
            if events[idx].weight().is_negative() {
                n += 1;
            }
            k += 1;
        }
        n
    }

    /// The events in the cell, the seed first.
    pub fn iter<'a>(&self, events: &'a [Event]) -> (r: Vec<&'a Event>)
        requires
            forall|j: int| 0 <= j < self.members().len() ==> (#[trigger] self.members()[j]) < events.len(),
        ensures
            r.len() == self.members().len(),
            forall|j: int| 0 <= j < r.len() ==> *(#[trigger] r[j]) == events[self.members()[j] as int],
    {
        let len = self.members.len();
        assert forall|j: int| 0 <= j < self.members.len() implies (#[trigger] self.members[j]) < events.len() by {
            assert(self.members()[j] < events.len());
        }
        let mut r: Vec<&'a Event> = Vec::new();
        let mut k: usize = 0;
        while k < len
            invariant
                k <= len,
                len == self.members.len(),
                r.len() == k,
                forall|j: int| 0 <= j < self.members.len() ==> (#[trigger] self.members[j]) < events.len(),
                forall|j: int| 0 <= j < k ==> *(#[trigger] r[j]) == events[self.members[j] as int],
            decreases len - k,
        {
            r.push(&events[self.members[k]]);
            k += 1;
        }
        r
    }

    /// The indices of the events in the cell, the seed first.
    pub fn member_indices(&self) -> (r: &Vec<usize>)
        ensures
            r@ == self.members(),
    {
        &self.members
    }

    /// Number of events in cell
    pub fn nmembers(&self) -> (n: usize)
        ensures
            n == self.members().len(),
    {
        self.members.len()
    }

    /// Cell radius
    ///
    /// This is the largest distance from the seed to any event in the cell.
    pub fn radius(&self) -> (r: Real)
        ensures
            r == self.spec_radius(),
    {
        self.radius
    }

    /// Sum of central event weights inside the cell
    pub fn weight_sum(&self) -> (r: Real)
        ensures
            r == self.spec_weight_sum(),
    {
        self.weight_sum
    }
}

/// Two cells that grew from the same seed over the same candidates agree in
/// their first members.
proof fn lemma_members_agree(
    a: &Cell,
    b: &Cell,
    events: Seq<Event>,
    seed: usize,
    pending: Set<usize>,
    dist_to: spec_fn(usize) -> Real,
    max_cell_size: Option<Real>,
    j: int,
)
    requires
        a.grown_from(events, seed, pending, dist_to, max_cell_size),
        b.grown_from(events, seed, pending, dist_to, max_cell_size),
        0 <= j < a.members().len(),
        j < b.members().len(),
    ensures
        forall|i: int| 0 <= i <= j ==> a.members()[i] == b.members()[i],
    decreases j,
{
    let ma = a.members();
    let mb = b.members();
    if j > 0 {
        lemma_members_agree(a, b, events, seed, pending, dist_to, max_cell_size, j - 1);
        // each of the two members at position j is at least as near as the other
        assert(nearer((ma[j], dist_to(ma[j])), (mb[j], dist_to(mb[j])))) by {
            assert(pending.contains(mb[j]));
            if ma.contains(mb[j]) {
                let i = choose|i: int| 0 <= i < ma.len() && ma[i] == mb[j];
                if i < j {
                    assert(mb[i] == mb[j]);
                }
            }
        }
        assert(nearer((mb[j], dist_to(mb[j])), (ma[j], dist_to(ma[j])))) by {
            assert(pending.contains(ma[j]));
            if mb.contains(ma[j]) {
                let i = choose|i: int| 0 <= i < mb.len() && mb[i] == ma[j];
                if i < j {
                    assert(ma[i] == ma[j]);
                }
            }
        }
    }
}

/// A cell is determined by its seed, the candidates and their distances:
/// two cells that grew from the same seed over the same candidates have the
/// same members, the same radius and the same sum of weights.
pub proof fn lemma_cell_is_determined(
    a: &Cell,
    b: &Cell,
    events: Seq<Event>,
    seed: usize,
    pending: Set<usize>,
    dist_to: spec_fn(usize) -> Real,
    max_cell_size: Option<Real>,
)
    requires
        a.grown_from(events, seed, pending, dist_to, max_cell_size),
        b.grown_from(events, seed, pending, dist_to, max_cell_size),
    ensures
        a.members() == b.members(),
        a.spec_radius() == b.spec_radius(),
        a.spec_weight_sum() == b.spec_weight_sum(),
{
    let ma = a.members();
    let mb = b.members();
    let n = if ma.len() <= mb.len() {
        ma.len() as int
    } else {
        mb.len() as int
    };
    lemma_members_agree(a, b, events, seed, pending, dist_to, max_cell_size, n - 1);
    lemma_members_agree(b, a, events, seed, pending, dist_to, max_cell_size, n - 1);
    lemma_no_more_members(a, b, events, seed, pending, dist_to, max_cell_size);
    lemma_no_more_members(b, a, events, seed, pending, dist_to, max_cell_size);
    assert(ma =~= mb);
}

/// A cell has no more members than another cell that grew from the same seed
/// over the same candidates.
proof fn lemma_no_more_members(
    a: &Cell,
    b: &Cell,
    events: Seq<Event>,
    seed: usize,
    pending: Set<usize>,
    dist_to: spec_fn(usize) -> Real,
    max_cell_size: Option<Real>,
)
    requires
        a.grown_from(events, seed, pending, dist_to, max_cell_size),
        b.grown_from(events, seed, pending, dist_to, max_cell_size),
        forall|i: int| 0 <= i < a.members().len() && i < b.members().len() ==> a.members()[i] == b.members()[i],
    ensures
        b.members().len() <= a.members().len(),
{
    let ma = a.members();
    let mb = b.members();
    if ma.len() < mb.len() {
        let n = ma.len() as int;
        let extra = mb[n];
        // the sum of the shorter cell is the sum that the longer cell had
        // before its next member joined, which was negative
        lemma_partial_sum_prefix(events, ma, mb, n);
        assert(partial_sum(events, mb, n).key() < 0);
        assert(a.spec_weight_sum().key() < 0);
        assert(pending.contains(extra));
        assert(!ma.contains(extra)) by {
            if ma.contains(extra) {
                let i = choose|i: int| 0 <= i < ma.len() && ma[i] == extra;
                assert(mb[i] == mb[n]);
            }
        }
        // so the next member of the longer cell is too far away for the
        // shorter one, and yet near enough for the longer one
        assert(!within(max_cell_size, dist_to(extra)));
        assert(within(max_cell_size, dist_to(mb[n])));
    }
}

/// The exact sums over the first `n` members do not depend on later members.
proof fn lemma_sums_prefix(events: Seq<Event>, a: Seq<usize>, b: Seq<usize>, n: int)
    requires
        0 <= n <= a.len(),
        a.len() <= b.len(),
        forall|k: int| 0 <= k < a.len() ==> a[k] == b[k],
    ensures
        exact_sum(events, a, n) == exact_sum(events, b, n),
        size_sum(events, a, n) == size_sum(events, b, n),
    decreases n,
{
    if n > 0 {
        lemma_sums_prefix(events, a, b, n - 1);
    }
}

/// The size of the exact sum is at most the sum of the sizes.
pub proof fn lemma_sum_bound(events: Seq<Event>, members: Seq<usize>, n: int)
    ensures
        0 <= size_of(exact_sum(events, members, n)) <= size_sum(events, members, n),
    decreases n,
{
    if n > 0 {
        lemma_sum_bound(events, members, n - 1);
    }
}

/// One more addition: if `s` is near the exact sum `e` of `n` weights of the
/// sizes `a`, and `t` is `s + w` rounded, then `t` is near `e + w`.
proof fn lemma_sum_step(s: int, w: int, t: int, e: int, a: int, n: int)
    requires
        1 <= n < FRACTION_STEPS,
        size_of(e) <= a,
        ROUNDING_STEPS * size_of(s - e) <= 2 * (n - 1) * a,
        is_rounded(s + w, t),
    ensures
        ROUNDING_STEPS * size_of(t - (e + w)) <= 2 * n * (a + size_of(w)),
{
    let d = size_of(s - e);
    let r = ROUNDING_STEPS as int;
    assert(2 * (n - 1) * a <= r * a) by (nonlinear_arith)
        requires
            1 <= n < FRACTION_STEPS,
            0 <= a,
            r == 2 * FRACTION_STEPS,
    ;
    assert(d <= a) by (nonlinear_arith)
        requires
            r * d <= r * a,
            r > 0,
    ;
    assert(size_of(s + w) <= 2 * a + size_of(w));
    assert(r * size_of(t - (e + w)) <= r * size_of(t - (s + w)) + r * d) by (nonlinear_arith)
        requires
            size_of(t - (e + w)) <= size_of(t - (s + w)) + d,
            r > 0,
    ;
    assert(2 * n * a + size_of(w) <= 2 * n * (a + size_of(w))) by (nonlinear_arith)
        requires
            n >= 1,
            size_of(w) >= 0,
    ;
    assert(2 * (n - 1) * a + 2 * a == 2 * n * a) by (nonlinear_arith);
}

/// If every member has the central weight `q`, their exact sum is the number
/// of members times `q`.
proof fn lemma_equal_weights(events: Seq<Event>, members: Seq<usize>, n: int, q: Real)
    requires
        0 <= n <= members.len(),
        forall|j: int| 0 <= j < n ==> (#[trigger] members[j]) < events.len() && events[members[j] as int].central() == q,
    ensures
        exact_sum(events, members, n) == n * q.units(),
    decreases n,
{
    let u = q.units();
    if n > 0 {
        lemma_equal_weights(events, members, n - 1, q);
        assert(members[n - 1] < events.len() && events[members[n - 1] as int].central() == q);
        assert(exact_sum(events, members, n) == exact_sum(events, members, n - 1) + u);
        assert((n - 1) * u + u == n * u) by (nonlinear_arith);
    } else {
        assert(n * u == 0) by (nonlinear_arith)
            requires
                n == 0,
        ;
    }
}

/// The mean `q` of `n` weights, which is the rounded quotient of their
/// rounded sum `s` by `n`, times `n` is near the exact sum `e` of the
/// weights, whose sizes add up to `a`.
proof fn lemma_mean_is_near(s: int, q: int, e: int, a: int, n: int)
    requires
        1 <= n <= FRACTION_STEPS,
        size_of(e) <= a,
        ROUNDING_STEPS * size_of(s - e) <= 2 * (n - 1) * a,
        is_rounded_quotient(s, n * pow2(1074), q),
    ensures
        ROUNDING_STEPS * size_of(n * q - e) <= 2 * n * a + n * FRACTION_STEPS,
{
    let r = ROUNDING_STEPS as int;
    let f = FRACTION_STEPS as int;
    let d = size_of(s - e);
    let x = size_of(n * q - s);
    let low = pow2(1022) as int;
    let all = pow2(1074) as int;
    assert(all == f * low && low > 0) by {
        vstd::arithmetic::power2::lemma_pow2_adds(52, 1022);
        vstd::arithmetic::power2::lemma_pow2_pos(1022);
        vstd::arithmetic::power2::lemma2_to64();
        vstd::arithmetic::power2::lemma_pow2_adds(32, 20);
        assert(pow2(52) == 0x1_0000_0000 * 0x10_0000);
        assert(pow2(52) == 0x10_0000_0000_0000);
        assert(pow2(1074) == pow2(52) * pow2(1022));
    }
    assert(size_of(q * (n * all) - s * all) == all * x) by (nonlinear_arith)
        requires
            x == size_of(n * q - s),
            all > 0,
    ;
    assert(size_of(n * all) == n * all) by (nonlinear_arith)
        requires
            n >= 1,
            all > 0,
    ;
    assert(r * x <= size_of(s) + n * f) by (nonlinear_arith)
        requires
            2 * (all * x) <= size_of(s) * low + n * all,
            all == f * low,
            low > 0,
            r == 2 * f,
            x >= 0,
            n >= 1,
    ;
    assert(2 * (n - 1) * a <= r * a) by (nonlinear_arith)
        requires
            1 <= n <= FRACTION_STEPS,
            0 <= a,
            r == 2 * FRACTION_STEPS,
    ;
    assert(d <= a) by (nonlinear_arith)
        requires
            r * d <= r * a,
            r > 0,
    ;
    assert(size_of(s) <= 2 * a);
    assert(r * size_of(n * q - e) <= r * x + r * d) by (nonlinear_arith)
        requires
            size_of(n * q - e) <= x + d,
            r > 0,
    ;
    assert(2 * (n - 1) * a + 2 * a == 2 * n * a) by (nonlinear_arith);
}

/// One more chosen event adds its central weight to the sum of the chosen.
proof fn lemma_chosen_one_more(events: Seq<Event>, chosen: Set<usize>, x: usize, n: int)
    requires
        !chosen.contains(x),
        0 <= n <= usize::MAX,
    ensures
        chosen_sum(events, chosen.insert(x), n) == chosen_sum(events, chosen, n) + if x < n {
            events[x as int].central().units()
        } else {
            0
        },
    decreases n,
{
    if n > 0 {
        lemma_chosen_one_more(events, chosen, x, n - 1);
    }
}

/// The exact sum over members that are all different is the sum over the
/// events of the pool that are members.
pub proof fn lemma_members_are_chosen(events: Seq<Event>, members: Seq<usize>, k: int)
    requires
        0 <= k <= members.len(),
        members.no_duplicates(),
        events.len() <= usize::MAX,
        forall|j: int| 0 <= j < members.len() ==> (#[trigger] members[j]) < events.len(),
    ensures
        exact_sum(events, members, k) == chosen_sum(events, members.take(k).to_set(), events.len() as int),
    decreases k,
{
    let len = events.len() as int;
    if k > 0 {
        lemma_members_are_chosen(events, members, k - 1);
        let shorter = members.take(k - 1);
        let longer = members.take(k);
        let fewer = shorter.to_set();
        let x = members[k - 1];
        assert(!fewer.contains(x)) by {
            if shorter.contains(x) {
                let j = choose|j: int| 0 <= j < shorter.len() && shorter[j] == x;
                assert(members[j] == members[k - 1]);
            }
        }
        assert(longer.to_set() =~= fewer.insert(x)) by {
            assert forall|i: usize| longer.to_set().contains(i) == fewer.insert(x).contains(i) by {
                if longer.contains(i) {
                    let j = choose|j: int| 0 <= j < longer.len() && longer[j] == i;
                    if j < k - 1 {
                        assert(shorter[j] == i);
                    }
                }
                if shorter.contains(i) {
                    let j = choose|j: int| 0 <= j < shorter.len() && shorter[j] == i;
                    assert(longer[j] == i);
                }
                if i == x {
                    assert(longer[k - 1] == i);
                }
            }
        }
        lemma_chosen_one_more(events, fewer, x, len);
    } else {
        assert(members.take(0).to_set() =~= Set::<usize>::empty());
        lemma_none_chosen(events, len);
    }
}

/// The sum over no events is zero.
proof fn lemma_none_chosen(events: Seq<Event>, n: int)
    ensures
        chosen_sum(events, Set::<usize>::empty(), n) == 0,
    decreases n,
{
    if n > 0 {
        lemma_none_chosen(events, n - 1);
    }
}

/// Two pools that differ in the chosen events only differ in their sums as
/// the chosen events do.
proof fn lemma_total_changes_in_chosen(before: Seq<Event>, after: Seq<Event>, chosen: Set<usize>, n: int)
    requires
        0 <= n <= before.len(),
        before.len() == after.len(),
        before.len() <= usize::MAX,
        forall|i: int| 0 <= i < before.len() && !chosen.contains(i as usize) ==> (#[trigger] after[i]).central() == before[i].central(),
    ensures
        pool_sum(after, n) - pool_sum(before, n) == chosen_sum(after, chosen, n) - chosen_sum(before, chosen, n),
    decreases n,
{
    if n > 0 {
        lemma_total_changes_in_chosen(before, after, chosen, n - 1);
        if !chosen.contains((n - 1) as usize) {
            assert(after[n - 1].central() == before[n - 1].central());
        }
    }
}

/// Two pools that differ in the members of a cell only differ in their sums
/// as the members do.
proof fn lemma_total_changes_in_members(before: Seq<Event>, after: Seq<Event>, members: Seq<usize>)
    requires
        before.len() == after.len(),
        before.len() <= usize::MAX,
        members.no_duplicates(),
        forall|j: int| 0 <= j < members.len() ==> (#[trigger] members[j]) < before.len(),
        forall|i: int| 0 <= i < before.len() && !members.contains(i as usize) ==> (#[trigger] after[i]).central() == before[i].central(),
    ensures
        pool_sum(after, after.len() as int) - pool_sum(before, before.len() as int) == exact_sum(
            after,
            members,
            members.len() as int,
        ) - exact_sum(before, members, members.len() as int),
{
    let k = members.len() as int;
    assert(members.take(k) == members);
    lemma_members_are_chosen(before, members, k);
    lemma_members_are_chosen(after, members, k);
    lemma_total_changes_in_chosen(before, after, members.to_set(), before.len() as int);
}

/// The number of negative weights among the first `n` members does not
/// depend on later members.
pub proof fn lemma_count_negative_prefix(events: Seq<Event>, a: Seq<usize>, b: Seq<usize>, n: int)
    requires
        0 <= n <= a.len(),
        a.len() <= b.len(),
        forall|k: int| 0 <= k < a.len() ==> a[k] == b[k],
    ensures
        count_negative(events, a, n) == count_negative(events, b, n),
    decreases n,
{
    if n > 0 {
        lemma_count_negative_prefix(events, a, b, n - 1);
    }
}

/// The sum over the first `n` members does not depend on later members.
pub proof fn lemma_partial_sum_prefix(events: Seq<Event>, a: Seq<usize>, b: Seq<usize>, n: int)
    requires
        1 <= n <= a.len(),
        a.len() <= b.len(),
        forall|k: int| 0 <= k < a.len() ==> a[k] == b[k],
    ensures
        partial_sum(events, a, n) == partial_sum(events, b, n),
    decreases n,
{
    if n > 1 {
        lemma_partial_sum_prefix(events, a, b, n - 1);
    }
}

} // verus!
