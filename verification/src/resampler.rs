//! Cell resampling of an event pool.
use vstd::prelude::*;
use crate::cell::{
    lemma_cell_is_determined, lemma_mean_weights_congruence, lemma_sum_bound, mean_weights, partial_sum,
    pool_size_sum, pool_sum, size_sum, total_is_kept, uniform, Cell,
};
use crate::distance::{pool_accepted, DistWrapper, Distance};
use crate::event::{pool_finite, pool_wf, Event};
use crate::number::{size_of, Real, FRACTION_STEPS, ROUNDING_STEPS};
use crate::seeds::{eligible, is_seed, precedes, select_seed, Strategy};
use crate::traits::{NeighbourIter, NeighbourSearch};

verus! {

/// The event at index `i` belongs to one of the first `k` cells.
pub open spec fn in_cells(cells: Seq<Cell>, k: int, i: usize) -> bool {
    exists|c: int| 0 <= c < k && c < cells.len() && (#[trigger] cells[c]).members().contains(i)
}

/// For each event of a pool of `n` events, whether it belongs to one of the
/// first `k` cells.
pub open spec fn used_before(cells: Seq<Cell>, k: int, n: nat) -> Seq<bool> {
    Seq::new(n, |i: int| in_cells(cells, k, i as usize))
}

/// The events of a pool of `n` events that can join the cell number `k`
/// around `seed`: those that are in no earlier cell.
pub open spec fn candidates(cells: Seq<Cell>, k: int, n: nat, seed: usize) -> Set<usize> {
    Set::new(|p: usize| p < n && p != seed && !in_cells(cells, k, p))
}

/// The distance of each event of the pool from the event at index `seed`.
pub open spec fn distance_from<D: Distance>(distance: &D, events: Seq<Event>, seed: usize) -> spec_fn(usize) -> Real {
    |p: usize| distance.spec_distance(events[p as int].outgoing@, events[seed as int].outgoing@)
}

/// The cell number `k` is the one that follows the earlier cells: its seed is
/// the event that `strategy` chooses among the events in no earlier cell, and
/// it grows over those events.
pub open spec fn cell_in_turn<D: Distance>(
    before: Seq<Event>,
    cells: Seq<Cell>,
    k: int,
    distance: &D,
    strategy: Strategy,
    max_cell_size: Option<Real>,
) -> bool {
    let seed = cells[k].members()[0];
    &&& cells[k].members().len() >= 1
    &&& is_seed(strategy, before, used_before(cells, k, before.len()), seed as int)
    &&& cells[k].grown_from(
        before,
        seed,
        candidates(cells, k, before.len(), seed),
        distance_from(distance, before, seed),
        max_cell_size,
    )
}

/// The weights of the event number `i` after it has become a member of the
/// cell `cell`. Its central weight is the mean of the central weights in the
/// cell or, if all weights are averaged, its weights are the means of the
/// weights in the cell.
pub open spec fn new_weights(all_weights: bool, before: Seq<Event>, cell: Cell, i: int) -> Seq<Real> {
    if all_weights {
        mean_weights(before, cell.members())
    } else {
        before[i].weights@.update(0, cell.mean())
    }
}

/// All events have as many weights as the first one.
pub open spec fn same_number_of_weights(events: Seq<Event>) -> bool {
    forall|i: int| 0 <= i < events.len() ==> (#[trigger] events[i]).weights.len() == events[0].weights.len()
}

/// The pool `after` and the cells `cells` are the result of resampling the
/// pool `before`.
///
/// Each cell follows the earlier ones as [`cell_in_turn`] says. No event
/// outside the cells has negative central weight. An event in a cell has the
/// weights that [`new_weights`] gives; nothing else has changed.
pub open spec fn resampled<D: Distance>(
    before: Seq<Event>,
    after: Seq<Event>,
    cells: Seq<Cell>,
    distance: &D,
    strategy: Strategy,
    max_cell_size: Option<Real>,
    all_weights: bool,
) -> bool {
    &&& after.len() == before.len()
    &&& forall|k: int| 0 <= k < cells.len() ==> cell_in_turn(before, cells, k, distance, strategy, max_cell_size)
    &&& forall|i: int|
        0 <= i < before.len() && !in_cells(cells, cells.len() as int, i as usize) ==> (#[trigger] before[i]).central().key()
            >= 0
    &&& forall|i: int|
        0 <= i < before.len() ==> {
            &&& (#[trigger] after[i]).id == before[i].id
            &&& after[i].outgoing == before[i].outgoing
        }
    &&& forall|i: int|
        0 <= i < before.len() && !in_cells(cells, cells.len() as int, i as usize) ==> (#[trigger] after[i]).weights@
            == before[i].weights@
    &&& forall|c: int, i: usize|
        0 <= c < cells.len() && #[trigger] cells[c].members().contains(i) ==> i < before.len() && after[i as int].weights@
            == new_weights(all_weights, before, cells[c], i as int)
}

/// No cell has an infinite sum of weights or an infinite mean weight.
pub open spec fn cells_are_finite(cells: Seq<Cell>) -> bool {
    forall|c: int| 0 <= c < cells.len() ==> (#[trigger] cells[c]).spec_weight_sum().is_finite() && cells[c].mean().is_finite()
}

/// The pool `after` has the same sum of central weights as the pool
/// `before`, up to rounding: the difference is at most one part in two to
/// the power 52 of the sizes of the weights before and half a unit, for each
/// event.
pub open spec fn pool_total_is_kept(before: Seq<Event>, after: Seq<Event>) -> bool {
    let n = before.len() as int;
    ROUNDING_STEPS * size_of(pool_sum(after, n) - pool_sum(before, n)) <= 2 * n * pool_size_sum(before, n) + n
        * FRACTION_STEPS
}

/// The sum of the sizes of the central weights of those of the first `n`
/// events that are marked in `used`.
pub open spec fn marked_sizes(events: Seq<Event>, used: Seq<bool>, n: int) -> int
    decreases n,
{
    if n <= 0 {
        0
    } else {
        marked_sizes(events, used, n - 1) + if used[n - 1] {
            size_of(events[n - 1].central().units())
        } else {
            0
        }
    }
}

/// The number of those of the first `n` events that are marked in `used`.
pub open spec fn marked_count(used: Seq<bool>, n: int) -> int
    decreases n,
{
    if n <= 0 {
        0
    } else {
        marked_count(used, n - 1) + if used[n - 1] {
            1int
        } else {
            0int
        }
    }
}

/// The pool `events` has the same sum of central weights as the pool
/// `before`, up to the rounding in the events that are marked in `used`.
pub open spec fn total_so_far(before: Seq<Event>, events: Seq<Event>, used: Seq<bool>) -> bool {
    let n = before.len() as int;
    ROUNDING_STEPS * size_of(pool_sum(events, n) - pool_sum(before, n)) <= 2 * n * marked_sizes(before, used, n)
        + marked_count(used, n) * FRACTION_STEPS
}

/// Marking one more event adds its size and counts it.
proof fn lemma_mark_one(events: Seq<Event>, used: Seq<bool>, x: int, n: int)
    requires
        0 <= x < used.len(),
        !used[x],
        0 <= n <= used.len(),
    ensures
        marked_sizes(events, used.update(x, true), n) == marked_sizes(events, used, n) + if x < n {
            size_of(events[x].central().units())
        } else {
            0
        },
        marked_count(used.update(x, true), n) == marked_count(used, n) + if x < n {
            1int
        } else {
            0int
        },
    decreases n,
{
    if n > 0 {
        lemma_mark_one(events, used, x, n - 1);
    }
}

/// The marks `used` with the first `t` of `members` marked as well.
spec fn marked_with(used: Seq<bool>, members: Seq<usize>, t: int) -> Seq<bool> {
    Seq::new(used.len(), |i: int| used[i] || members.take(t).contains(i as usize))
}

/// Marking the first `t` members of a cell, which are all different and were
/// not marked, adds their sizes and counts them.
proof fn lemma_mark_members(events: Seq<Event>, used: Seq<bool>, members: Seq<usize>, t: int)
    requires
        0 <= t <= members.len(),
        used.len() <= usize::MAX,
        members.no_duplicates(),
        forall|j: int| 0 <= j < members.len() ==> (#[trigger] members[j]) < used.len() && !used[members[j] as int],
    ensures
        marked_sizes(events, marked_with(used, members, t), used.len() as int) == marked_sizes(
            events,
            used,
            used.len() as int,
        ) + size_sum(events, members, t),
        marked_count(marked_with(used, members, t), used.len() as int) == marked_count(used, used.len() as int) + t,
    decreases t,
{
    if t > 0 {
        lemma_mark_members(events, used, members, t - 1);
        let fewer = marked_with(used, members, t - 1);
        let shorter = members.take(t - 1);
        let longer = members.take(t);
        let x = members[t - 1];
        assert(!fewer[x as int]) by {
            if shorter.contains(x) {
                let j = choose|j: int| 0 <= j < shorter.len() && shorter[j] == x;
                assert(members[j] == members[t - 1]);
            }
        }
        assert(marked_with(used, members, t) =~= fewer.update(x as int, true)) by {
            assert forall|i: int| 0 <= i < used.len() implies marked_with(used, members, t)[i] == fewer.update(
                x as int,
                true,
            )[i] by {
                if longer.contains(i as usize) {
                    let j = choose|j: int| 0 <= j < longer.len() && longer[j] == i as usize;
                    if j < t - 1 {
                        assert(shorter[j] == i as usize);
                    }
                }
                if shorter.contains(i as usize) {
                    let j = choose|j: int| 0 <= j < shorter.len() && shorter[j] == i as usize;
                    assert(longer[j] == i as usize);
                }
                if i == x {
                    assert(longer[t - 1] == x);
                }
            }
        }
        lemma_mark_one(events, fewer, x as int, used.len() as int);
    } else {
        assert(marked_with(used, members, 0) =~= used) by {
            assert(members.take(0).len() == 0);
        }
    }
}

/// The sizes of the marked events are at most those of all events, and no
/// more events are marked than there are.
proof fn lemma_marked_bounds(events: Seq<Event>, used: Seq<bool>, n: int)
    ensures
        0 <= marked_sizes(events, used, n) <= pool_size_sum(events, n),
        0 <= marked_count(used, n),
        n >= 0 ==> marked_count(used, n) <= n,
    decreases n,
{
    if n > 0 {
        lemma_marked_bounds(events, used, n - 1);
    }
}

/// Without marks nothing is counted.
proof fn lemma_marked_none(events: Seq<Event>, used: Seq<bool>, n: int)
    requires
        n <= used.len(),
        forall|i: int| 0 <= i < used.len() ==> !(#[trigger] used[i]),
    ensures
        marked_sizes(events, used, n) == 0,
        marked_count(used, n) == 0,
    decreases n,
{
    if n > 0 {
        lemma_marked_none(events, used, n - 1);
    }
}

/// The sizes of the weights of members depend on their central weights only.
proof fn lemma_size_sum_congruence(e1: Seq<Event>, e2: Seq<Event>, members: Seq<usize>, k: int)
    requires
        0 <= k <= members.len(),
        forall|j: int| 0 <= j < members.len() ==> e1[(#[trigger] members[j]) as int].central() == e2[members[j] as int].central(),
    ensures
        size_sum(e1, members, k) == size_sum(e2, members, k),
    decreases k,
{
    if k > 0 {
        lemma_size_sum_congruence(e1, e2, members, k - 1);
        assert(e1[members[k - 1] as int].central() == e2[members[k - 1] as int].central());
    }
}

/// One more cell: if the total was kept up to the rounding in the marked
/// events, and a cell of `k` unmarked events with the sizes `a` keeps it up
/// to its own rounding, the total is kept up to the rounding in all of them.
pub proof fn lemma_total_step(tb: int, t0: int, t1: int, n: int, s0: int, c0: int, k: int, a: int)
    requires
        ROUNDING_STEPS * size_of(t0 - tb) <= 2 * n * s0 + c0 * FRACTION_STEPS,
        ROUNDING_STEPS * size_of(t1 - t0) <= 2 * k * a + k * FRACTION_STEPS,
        0 <= k <= n,
        0 <= a,
    ensures
        ROUNDING_STEPS * size_of(t1 - tb) <= 2 * n * (s0 + a) + (c0 + k) * FRACTION_STEPS,
{
    let r = ROUNDING_STEPS as int;
    let f = FRACTION_STEPS as int;
    assert(r * size_of(t1 - tb) <= r * size_of(t1 - t0) + r * size_of(t0 - tb)) by (nonlinear_arith)
        requires
            size_of(t1 - tb) <= size_of(t1 - t0) + size_of(t0 - tb),
            r > 0,
    ;
    assert(2 * k * a <= 2 * n * a) by (nonlinear_arith)
        requires
            0 <= k <= n,
            0 <= a,
    ;
    assert(2 * n * (s0 + a) == 2 * n * s0 + 2 * n * a) by (nonlinear_arith);
    assert((c0 + k) * f == c0 * f + k * f) by (nonlinear_arith);
}

/// The number of events that are in no cell.
pub open spec fn count_free(used: Seq<bool>) -> nat
    decreases used.len(),
{
    if used.len() == 0 {
        0
    } else {
        count_free(used.drop_last()) + if used.last() {
            0nat
        } else {
            1nat
        }
    }
}

proof fn lemma_count_free_mark(used: Seq<bool>, i: int)
    requires
        0 <= i < used.len(),
    ensures
        count_free(used.update(i, true)) + (if used[i] { 0nat } else { 1nat }) == count_free(used),
    decreases used.len(),
{
    let marked = used.update(i, true);
    if i == used.len() - 1 {
        assert(marked.drop_last() =~= used.drop_last());
    } else {
        lemma_count_free_mark(used.drop_last(), i);
        assert(marked.drop_last() =~= used.drop_last().update(i, true));
    }
}

/// A cell that grew over one pool with one measure of distance also grew over
/// any pool with the same weights, with any measure that agrees on the
/// candidates.
proof fn lemma_grown_from_congruence(
    cell: &Cell,
    e1: Seq<Event>,
    e2: Seq<Event>,
    seed: usize,
    pending: Set<usize>,
    d1: spec_fn(usize) -> Real,
    d2: spec_fn(usize) -> Real,
    max_cell_size: Option<Real>,
)
    requires
        cell.grown_from(e1, seed, pending, d1, max_cell_size),
        e1[seed as int].central() == e2[seed as int].central(),
        forall|p: usize| #[trigger] pending.contains(p) ==> e1[p as int].central() == e2[p as int].central() && d1(p) == d2(p),
    ensures
        cell.grown_from(e2, seed, pending, d2, max_cell_size),
{
    let m = cell.members();
    assert forall|j: int| 1 <= j <= m.len() implies #[trigger] partial_sum(e1, m, j) == partial_sum(e2, m, j) by {
        lemma_partial_sum_congruence(e1, e2, m, j, pending);
    }
    assert forall|j: int| 1 <= j < m.len() implies d1(#[trigger] m[j]) == d2(m[j]) by {
        assert(pending.contains(m[j]));
    }
    assert forall|i: int, j: int| 1 <= i < j < m.len() implies crate::traits::nearer(
        (#[trigger] m[i], d2(m[i])),
        (#[trigger] m[j], d2(m[j])),
    ) by {
        assert(crate::traits::nearer((m[i], d1(m[i])), (m[j], d1(m[j]))));
    }
    assert forall|j: int, p: usize| 1 <= j < m.len() && pending.contains(p) && !m.contains(p) implies crate::traits::nearer(
        (#[trigger] m[j], d2(m[j])),
        (p, #[trigger] d2(p)),
    ) by {
        assert(crate::traits::nearer((m[j], d1(m[j])), (p, d1(p))));
    }
    assert forall|j: int| 1 <= j < m.len() implies (#[trigger] partial_sum(e2, m, j)).key() < 0 by {
        assert(partial_sum(e1, m, j).key() < 0);
    }
    assert(partial_sum(e1, m, m.len() as int) == partial_sum(e2, m, m.len() as int));
    if cell.spec_weight_sum().key() < 0 {
        assert forall|p: usize| pending.contains(p) && !m.contains(p) implies !crate::cell::within(
            max_cell_size,
            #[trigger] d2(p),
        ) by {
            assert(!crate::cell::within(max_cell_size, d1(p)));
        }
    }
}

proof fn lemma_partial_sum_congruence(e1: Seq<Event>, e2: Seq<Event>, m: Seq<usize>, n: int, pending: Set<usize>)
    requires
        1 <= n <= m.len(),
        e1[m[0] as int].central() == e2[m[0] as int].central(),
        forall|j: int| 1 <= j < m.len() ==> pending.contains(#[trigger] m[j]),
        forall|p: usize| #[trigger] pending.contains(p) ==> e1[p as int].central() == e2[p as int].central(),
    ensures
        partial_sum(e1, m, n) == partial_sum(e2, m, n),
    decreases n,
{
    if n > 1 {
        lemma_partial_sum_congruence(e1, e2, m, n - 1, pending);
        assert(pending.contains(m[n - 1]));
    }
}

/// An event has a negative central weight only as a member of a cell whose
/// sum of weights stayed negative. If there is no such cell, no event has a
/// negative central weight.
pub open spec fn negative_only_in_negative_cells(after: Seq<Event>, cells: Seq<Cell>) -> bool {
    &&& forall|i: int|
        0 <= i < after.len() && (#[trigger] after[i]).central().key() < 0 ==> exists|c: int|
            0 <= c < cells.len() && (#[trigger] cells[c]).members().contains(i as usize) && cells[c].spec_weight_sum().key()
                < 0
    &&& (forall|c: int| 0 <= c < cells.len() ==> (#[trigger] cells[c]).spec_weight_sum().key() >= 0) ==> forall|i: int|
        0 <= i < after.len() ==> (#[trigger] after[i]).central().key() >= 0
}

/// Resample the events of one partition.
///
/// As long as an event with negative central weight is in no cell, the event
/// that `strategy` chooses among these becomes the seed of a new cell. The cell
/// grows over the events that are in no cell, and its members get their mean
/// weight, or the means of all their weights if `all_weights` is set. The
/// cells are returned in the order in which they were made.
///
/// If only the central weight is averaged, an event can have a negative
/// central weight afterwards only as a member of a cell whose sum of weights
/// stayed negative. The sum of the central weights over the pool is then kept
/// up to rounding, unless a sum or a mean in a cell is infinite.
pub fn resample_partition<D: Distance, N: NeighbourSearch>(
    events: &mut Vec<Event>,
    distance: &D,
    strategy: Strategy,
    max_cell_size: Option<Real>,
    all_weights: bool,
) -> (cells: Vec<Cell>)
    requires
        pool_finite(old(events)@),
        pool_accepted(distance, old(events)@),
        all_weights ==> same_number_of_weights(old(events)@),
    ensures
        resampled(old(events)@, final(events)@, cells@, distance, strategy, max_cell_size, all_weights),
        pool_wf(final(events)@),
        !all_weights ==> negative_only_in_negative_cells(final(events)@, cells@),
        !all_weights && old(events).len() <= FRACTION_STEPS && cells_are_finite(cells@) ==> pool_total_is_kept(
            old(events)@,
            final(events)@,
        ),
{
    let ghost before = events@;
    let n = events.len();
    let mut used: Vec<bool> = Vec::new();
    while used.len() < n
        invariant
            used.len() <= n,
            forall|i: int| 0 <= i < used.len() ==> !(#[trigger] used[i]),
        decreases n - used.len(),
    {
        used.push(false);
    }
    let d = DistWrapper::new(distance, events.as_slice());
    let mut search = N::new_with_dist(n, &d);
    let mut cells: Vec<Cell> = Vec::new();
    proof {
        assert(pool_wf(events@)) by {
            assert forall|i: int| 0 <= i < events.len() implies (#[trigger] events[i]).wf() by {
                assert(events[i].finite());
            }
        }
        assert(search.remaining() =~= Set::new(|i: usize| i < n && !used[i as int]));
        lemma_marked_none(before, used@, n as int);
    }
    let mut next_seed = select_seed(strategy, events.as_slice(), used.as_slice());
    while next_seed.is_some()
        invariant
            before == old(events)@,
            n == before.len(),
            !all_weights && n <= FRACTION_STEPS && cells_are_finite(cells@) ==> total_so_far(before, events@, used@),
            events.len() == n,
            used.len() == n,
            search.wf(),
            search.npoints() == n,
            search.remaining() == Set::new(|i: usize| i < n && !used[i as int]),
            pool_finite(before),
            pool_accepted(distance, before),
            all_weights ==> same_number_of_weights(before),
            pool_wf(events@),
            forall|i: int| 0 <= i < n ==> (#[trigger] used[i]) == in_cells(cells@, cells.len() as int, i as usize),
            forall|i: int| 0 <= i < n && !used[i] ==> (#[trigger] events[i]).weights@ == before[i].weights@,
            forall|i: int|
                0 <= i < n ==> {
                    &&& (#[trigger] events[i]).id == before[i].id
                    &&& events[i].outgoing == before[i].outgoing
                },
            forall|k: int| 0 <= k < cells.len() ==> cell_in_turn(before, cells@, k, distance, strategy, max_cell_size),
            !all_weights ==> forall|c: int|
                0 <= c < cells.len() && (#[trigger] cells[c]).spec_weight_sum().key() >= 0 ==> cells[c].mean().key() >= 0,
            forall|c: int, i: usize|
                0 <= c < cells.len() && #[trigger] cells[c].members().contains(i) ==> i < n && events[i as int].weights@
                    == new_weights(all_weights, before, cells[c], i as int),
            match next_seed {
                Some(s) => is_seed(strategy, events@, used@, s as int),
                None => forall|j: int| !eligible(events@, used@, j),
            },
        decreases count_free(used@),
    {
        let seed = next_seed.unwrap();
        let ghost used0 = used@;
        let ghost events0 = events@;
        let ghost cells0 = cells@;
        let ghost pending0 = search.remaining().remove(seed);
        proof {
            assert(pool_accepted(distance, events@)) by {
                assert forall|i: int| 0 <= i < events.len() implies distance.accepts((#[trigger] events[i]).outgoing@) by {
                    assert(distance.accepts(before[i].outgoing@));
                }
            }
        }
        let d = DistWrapper::new(distance, events.as_slice());
        let mut neighbours = search.nearest_in(seed, &d);
        let ghost dist0 = |p: usize| neighbours.dist_to(p);
        proof {
            assert(events[seed as int].finite()) by {
                assert(before[seed as int].finite());
            }
            assert forall|p: usize| #[trigger] neighbours.pending().contains(p) implies p < events.len()
                && events[p as int].finite() by {
                assert(before[p as int].finite());
                assert(events[p as int].weights@ == before[p as int].weights@);
            }
        }
        let cell = Cell::new(events.as_slice(), seed, &mut neighbours, max_cell_size);
        proof {
            // the members of the new cell were in no cell
            assert forall|t: int| 0 <= t < cell.members().len() implies !used0[(#[trigger] cell.members()[t]) as int]
                && cell.members()[t] < n by {
                if t > 0 {
                    assert(pending0.contains(cell.members()[t]));
                }
            }
            assert forall|t: int| 0 <= t < cell.members().len() implies events0[(#[trigger] cell.members()[t]) as int].weights@
                == before[cell.members()[t] as int].weights@ by {}
            if all_weights {
                assert(uniform(events0, cell.members())) by {
                    assert forall|t: int| 0 <= t < cell.members().len() implies (#[trigger] cell.members()[t]) < events0.len()
                        && events0[cell.members()[t] as int].finite() && events0[cell.members()[t] as int].weights.len()
                        == events0[cell.members()[0] as int].weights.len() by {
                        let m = cell.members()[t] as int;
                        let m0 = cell.members()[0] as int;
                        assert(before[m].finite());
                        assert(before[m0].finite());
                        assert(events0[m].weights@ == before[m].weights@);
                        assert(events0[m0].weights@ == before[m0].weights@);
                    }
                }
                lemma_mean_weights_congruence(events0, before, cell.members());
            }
        }
        proof {
            // a cell has no more members than the pool has events
            let none = Seq::new(n as nat, |i: int| false);
            lemma_mark_members(before, none, cell.members(), cell.members().len() as int);
            lemma_marked_none(before, none, n as int);
            lemma_marked_bounds(before, marked_with(none, cell.members(), cell.members().len() as int), n as int);
            assert(cell.members().len() <= n);
        }
        if all_weights {
            cell.resample_multiweight(events);
        } else {
            cell.resample(events);
        }
        let ghost events1 = events@;
        proof {
            if !all_weights && n <= FRACTION_STEPS && cell.spec_weight_sum().is_finite() && cell.mean().is_finite() {
                assert(total_is_kept(events0, events1, cell.members()));
            }
        }
        let len = cell.nmembers();
        let mut j: usize = 0;
        while j < len
            invariant
                j <= len,
                len == cell.members().len(),
                len >= 1,
                cell.members()[0] == seed,
                !used0[seed as int],
                used.len() == n,
                used0.len() == n,
                events@ == events1,
                search.wf(),
                search.npoints() == n,
                search.remaining() == Set::new(|i: usize| i < n && !used[i as int]),
                forall|k: int| 0 <= k < cell.members().len() ==> (#[trigger] cell.members()[k]) < n,
                forall|i: int|
                    0 <= i < n ==> (#[trigger] used[i]) == (used0[i] || cell.members().take(j as int).contains(i as usize)),
                count_free(used@) <= count_free(used0),
                j >= 1 ==> count_free(used@) < count_free(used0),
            decreases len - j,
        {
            let m = cell.member_indices()[j];
            let ghost marked_before = used@;
            assert(m == cell.members()[j as int]);
            used[m] = true;
            search.remove(m);
            proof {
                lemma_count_free_mark(marked_before, m as int);
                assert(used@ == marked_before.update(m as int, true));
                let prefix = cell.members().take(j as int);
                let longer = cell.members().take(j + 1);
                assert(longer == prefix.push(m));
                assert forall|i: int| 0 <= i < n implies (#[trigger] used[i]) == (used0[i] || longer.contains(i as usize)) by {
                    if i == m {
                        assert(longer[j as int] == m);
                    } else {
                        if prefix.contains(i as usize) {
                            let k = choose|k: int| 0 <= k < prefix.len() && prefix[k] == i as usize;
                            assert(longer[k] == i as usize);
                        }
                        if longer.contains(i as usize) {
                            let k = choose|k: int| 0 <= k < longer.len() && longer[k] == i as usize;
                            assert(prefix[k] == i as usize);
                        }
                    }
                }
                assert(search.remaining() =~= Set::new(|i: usize| i < n && !used[i as int]));
                if j == 0 {
                    assert(prefix.len() == 0);
                    assert(!marked_before[seed as int]);
                }
            }
            j += 1;
        }
        cells.push(cell);
        proof {
            let cells1 = cells@;
            let k = cells0.len() as int;
            let new_cell = cells1[k];
            let mem = new_cell.members();
            assert(cells1 == cells0.push(new_cell));
            assert(mem.take(len as int) == mem);
            if !all_weights {
                assert forall|c: int| 0 <= c < cells1.len() && (#[trigger] cells1[c]).spec_weight_sum().key() >= 0 implies cells1[c].mean().key()
                    >= 0 by {
                    if c < k {
                        assert(cells0[c] == cells1[c]);
                    }
                }
            }
            if !all_weights && n <= FRACTION_STEPS && cells_are_finite(cells1) {
                assert(cells_are_finite(cells0)) by {
                    assert forall|c: int| 0 <= c < cells0.len() implies (#[trigger] cells0[c]).spec_weight_sum().is_finite()
                        && cells0[c].mean().is_finite() by {
                        assert(cells0[c] == cells1[c]);
                    }
                }
                assert(cells1[k].spec_weight_sum().is_finite() && cells1[k].mean().is_finite());
                assert(total_is_kept(events0, events1, mem));
                assert forall|t: int| 0 <= t < mem.len() implies (#[trigger] mem[t]) < used0.len() && !used0[mem[t] as int] by {
                    if t > 0 {
                        assert(pending0.contains(mem[t]));
                    }
                }
                lemma_mark_members(before, used0, mem, len as int);
                assert(marked_with(used0, mem, len as int) =~= used@);
                assert forall|t: int| 0 <= t < mem.len() implies events0[(#[trigger] mem[t]) as int].central()
                    == before[mem[t] as int].central() by {
                    assert(events0[mem[t] as int].weights@ == before[mem[t] as int].weights@);
                }
                lemma_size_sum_congruence(events0, before, mem, len as int);
                lemma_marked_bounds(before, used0, n as int);
                lemma_sum_bound(before, mem, len as int);
                lemma_total_step(
                    pool_sum(before, n as int),
                    pool_sum(events0, n as int),
                    pool_sum(events1, n as int),
                    n as int,
                    marked_sizes(before, used0, n as int),
                    marked_count(used0, n as int),
                    len as int,
                    size_sum(before, mem, len as int),
                );
                assert(total_so_far(before, events1, used@));
            }
            // membership in the earlier cells is as before
            assert forall|c: int, i: usize| 0 <= c <= k implies in_cells(cells1, c, i) == in_cells(cells0, c, i) by {
                if in_cells(cells1, c, i) {
                    let x = choose|x: int| 0 <= x < c && x < cells1.len() && (#[trigger] cells1[x]).members().contains(i);
                    assert(cells0[x] == cells1[x]);
                }
                if in_cells(cells0, c, i) {
                    let x = choose|x: int| 0 <= x < c && x < cells0.len() && (#[trigger] cells0[x]).members().contains(i);
                    assert(cells0[x] == cells1[x]);
                }
            }
            assert forall|i: int| 0 <= i < n implies (#[trigger] used[i]) == in_cells(
                cells1,
                cells1.len() as int,
                i as usize,
            ) by {
                assert(used0[i] == in_cells(cells0, k, i as usize));
                assert(in_cells(cells1, k, i as usize) == in_cells(cells0, k, i as usize));
                if mem.contains(i as usize) {
                    assert(cells1[k].members().contains(i as usize));
                }
                if in_cells(cells1, k + 1, i as usize) {
                    let x = choose|x: int|
                        0 <= x < k + 1 && x < cells1.len() && (#[trigger] cells1[x]).members().contains(i as usize);
                    if x < k {
                        assert(cells0[x] == cells1[x]);
                        assert(in_cells(cells0, k, i as usize));
                    }
                }
            }
            // the members of the new cell were in no cell
            assert forall|t: int| 0 <= t < mem.len() implies !used0[(#[trigger] mem[t]) as int] by {
                if t > 0 {
                    assert(pending0.contains(mem[t]));
                }
            }
            assert forall|i: int| 0 <= i < n && !used[i] implies (#[trigger] events[i]).weights@ == before[i].weights@ by {
                assert(!mem.contains(i as usize));
                assert(events0[i].weights@ == before[i].weights@);
            }
            assert forall|c: int, i: usize| 0 <= c < cells1.len() && #[trigger] cells1[c].members().contains(i) implies i < n
                && events[i as int].weights@ == new_weights(all_weights, before, cells1[c], i as int) by {
                if c < k {
                    assert(cells0[c] == cells1[c]);
                    assert(cells0[c].members().contains(i));
                    assert(in_cells(cells0, k, i));
                    assert(used0[i as int]);
                    if mem.contains(i) {
                        let t = choose|t: int| 0 <= t < mem.len() && mem[t] == i;
                        assert(!used0[mem[t] as int]);
                    }
                } else {
                    let t = choose|t: int| 0 <= t < mem.len() && mem[t] == i;
                    assert(!used0[mem[t] as int]);
                    assert(events0[i as int].weights@ == before[i as int].weights@);
                }
            }
            // the new cell follows the earlier ones
            assert(cell_in_turn(before, cells1, k, distance, strategy, max_cell_size)) by {
                let cand = candidates(cells1, k, n as nat, seed);
                assert(cand =~= pending0) by {
                    assert forall|p: usize| cand.contains(p) == pending0.contains(p) by {
                        assert(in_cells(cells1, k, p) == in_cells(cells0, k, p));
                        if p < n {
                            assert(used0[p as int] == in_cells(cells0, k, p));
                        }
                    }
                }
                let d2 = distance_from(distance, before, seed);
                assert forall|p: usize| #[trigger] pending0.contains(p) implies events0[p as int].central()
                    == before[p as int].central() && dist0(p) == d2(p) by {
                    assert(events0[p as int].weights@ == before[p as int].weights@);
                    assert(events0[p as int].outgoing == before[p as int].outgoing);
                    assert(events0[seed as int].outgoing == before[seed as int].outgoing);
                }
                assert(events0[seed as int].weights@ == before[seed as int].weights@);
                lemma_grown_from_congruence(&new_cell, events0, before, seed, pending0, dist0, d2, max_cell_size);
                let ub = used_before(cells1, k, n as nat);
                assert(ub =~= used0);
                assert(is_seed(strategy, before, used0, seed as int)) by {
                    lemma_is_seed_congruence(strategy, events0, before, used0, seed as int);
                }
            }
            assert forall|c: int| 0 <= c < cells1.len() implies cell_in_turn(
                before,
                cells1,
                c,
                distance,
                strategy,
                max_cell_size,
            ) by {
                if c < k {
                    assert(cell_in_turn(before, cells0, c, distance, strategy, max_cell_size));
                    assert(cells0[c] == cells1[c]);
                    assert(used_before(cells1, c, n as nat) =~= used_before(cells0, c, n as nat));
                    assert(candidates(cells1, c, n as nat, cells1[c].members()[0]) =~= candidates(
                        cells0,
                        c,
                        n as nat,
                        cells0[c].members()[0],
                    ));
                }
            }
        }
        next_seed = select_seed(strategy, events.as_slice(), used.as_slice());
    }
    proof {
        if !all_weights && n <= FRACTION_STEPS && cells_are_finite(cells@) {
            lemma_marked_bounds(before, used@, n as int);
            let s = marked_sizes(before, used@, n as int);
            let c = marked_count(used@, n as int);
            let p = pool_size_sum(before, n as int);
            assert(2 * n * s + c * FRACTION_STEPS <= 2 * n * p + n * FRACTION_STEPS) by (nonlinear_arith)
                requires
                    0 <= s <= p,
                    0 <= c <= n,
            ;
        }
        assert forall|i: int| 0 <= i < n && !in_cells(cells@, cells.len() as int, i as usize) implies (#[trigger] before[i]).central().key()
            >= 0 by {
            assert(!used[i]);
            assert(!eligible(events@, used@, i));
            assert(events[i].weights@ == before[i].weights@);
        }
        if !all_weights {
            assert forall|i: int| 0 <= i < events.len() && (#[trigger] events[i]).central().key() < 0 implies exists|c: int|
                0 <= c < cells.len() && (#[trigger] cells[c]).members().contains(i as usize)
                    && cells[c].spec_weight_sum().key() < 0 by {
                if used[i] {
                    let c = choose|c: int|
                        0 <= c < cells.len() as int && c < cells@.len() && (#[trigger] cells@[c]).members().contains(
                            i as usize,
                        );
                    assert(cells[c].members().contains(i as usize));
                    assert(events[i].weights@ == before[i].weights@.update(0, cells[c].mean()));
                    assert(before[i].finite());
                } else {
                    assert(!eligible(events@, used@, i));
                }
            }
        }
    }
    cells
}

/// The first `k` cells of `a` and of `b` have the same members, the same
/// radius and the same sum of weights.
pub open spec fn same_cells(a: Seq<Cell>, b: Seq<Cell>, k: int) -> bool {
    forall|c: int|
        0 <= c < k ==> (#[trigger] a[c]).members() == b[c].members() && a[c].spec_radius() == b[c].spec_radius()
            && a[c].spec_weight_sum() == b[c].spec_weight_sum()
}

proof fn lemma_same_cells_same_members(a: Seq<Cell>, b: Seq<Cell>, k: int, i: usize)
    requires
        0 <= k <= a.len(),
        k <= b.len(),
        same_cells(a, b, k),
    ensures
        in_cells(a, k, i) == in_cells(b, k, i),
{
    if in_cells(a, k, i) {
        let c = choose|c: int| 0 <= c < k && c < a.len() && (#[trigger] a[c]).members().contains(i);
        assert(b[c].members().contains(i));
    }
    if in_cells(b, k, i) {
        let c = choose|c: int| 0 <= c < k && c < b.len() && (#[trigger] b[c]).members().contains(i);
        assert(a[c].members() == b[c].members());
        assert(a[c].members().contains(i));
    }
}

proof fn lemma_cells_are_determined<D: Distance>(
    before: Seq<Event>,
    after1: Seq<Event>,
    cells1: Seq<Cell>,
    after2: Seq<Event>,
    cells2: Seq<Cell>,
    distance: &D,
    strategy: Strategy,
    max_cell_size: Option<Real>,
    all_weights: bool,
    k: int,
)
    requires
        resampled(before, after1, cells1, distance, strategy, max_cell_size, all_weights),
        resampled(before, after2, cells2, distance, strategy, max_cell_size, all_weights),
        0 <= k <= cells1.len(),
        k <= cells2.len(),
    ensures
        same_cells(cells1, cells2, k),
    decreases k,
{
    if k > 0 {
        lemma_cells_are_determined(before, after1, cells1, after2, cells2, distance, strategy, max_cell_size, all_weights, k - 1);
        let c = k - 1;
        let n = before.len();
        assert(cell_in_turn(before, cells1, c, distance, strategy, max_cell_size));
        assert(cell_in_turn(before, cells2, c, distance, strategy, max_cell_size));
        let used1 = used_before(cells1, c, n);
        let used2 = used_before(cells2, c, n);
        assert(used1 =~= used2) by {
            assert forall|i: int| 0 <= i < n implies used1[i] == used2[i] by {
                lemma_same_cells_same_members(cells1, cells2, c, i as usize);
            }
        }
        let s1 = cells1[c].members()[0];
        let s2 = cells2[c].members()[0];
        assert(s1 == s2) by {
            assert(precedes(strategy, before, s1 as int, s2 as int));
            assert(precedes(strategy, before, s2 as int, s1 as int));
        }
        assert(candidates(cells1, c, n, s1) =~= candidates(cells2, c, n, s2)) by {
            assert forall|p: usize| candidates(cells1, c, n, s1).contains(p) == candidates(cells2, c, n, s2).contains(
                p,
            ) by {
                lemma_same_cells_same_members(cells1, cells2, c, p);
            }
        }
        lemma_cell_is_determined(
            &cells1[c],
            &cells2[c],
            before,
            s1,
            candidates(cells1, c, n, s1),
            distance_from(distance, before, s1),
            max_cell_size,
        );
    }
}

/// Resampling is determined by the pool and the settings: any two results of
/// resampling the same pool have the same cells and the same events.
pub proof fn lemma_resampling_is_determined<D: Distance>(
    before: Seq<Event>,
    after1: Seq<Event>,
    cells1: Seq<Cell>,
    after2: Seq<Event>,
    cells2: Seq<Cell>,
    distance: &D,
    strategy: Strategy,
    max_cell_size: Option<Real>,
    all_weights: bool,
)
    requires
        before.len() <= usize::MAX,
        resampled(before, after1, cells1, distance, strategy, max_cell_size, all_weights),
        resampled(before, after2, cells2, distance, strategy, max_cell_size, all_weights),
    ensures
        cells1.len() == cells2.len(),
        same_cells(cells1, cells2, cells1.len() as int),
        after1.len() == after2.len(),
        forall|i: int|
            0 <= i < after1.len() ==> (#[trigger] after1[i]).id == after2[i].id && after1[i].outgoing == after2[i].outgoing
                && after1[i].weights@ == after2[i].weights@,
{
    let n1 = cells1.len() as int;
    let n2 = cells2.len() as int;
    let k = if n1 <= n2 {
        n1
    } else {
        n2
    };
    lemma_cells_are_determined(before, after1, cells1, after2, cells2, distance, strategy, max_cell_size, all_weights, k);
    if n1 < n2 {
        lemma_no_further_cell(before, after1, cells1, after2, cells2, distance, strategy, max_cell_size, all_weights);
    }
    if n2 < n1 {
        lemma_cells_are_determined(before, after2, cells2, after1, cells1, distance, strategy, max_cell_size, all_weights, k);
        lemma_no_further_cell(before, after2, cells2, after1, cells1, distance, strategy, max_cell_size, all_weights);
    }
    assert forall|i: int| 0 <= i < after1.len() implies (#[trigger] after1[i]).id == after2[i].id && after1[i].outgoing
        == after2[i].outgoing && after1[i].weights@ == after2[i].weights@ by {
        lemma_same_cells_same_members(cells1, cells2, n1, i as usize);
        if in_cells(cells1, n1, i as usize) {
            let c = choose|c: int| 0 <= c < n1 && c < cells1.len() && (#[trigger] cells1[c]).members().contains(i as usize);
            assert(cells2[c].members().contains(i as usize));
            assert(cells1[c].mean() == cells2[c].mean());
            assert(new_weights(all_weights, before, cells1[c], i) == new_weights(all_weights, before, cells2[c], i));
        }
    }
}

/// If the cells of one result are the first cells of another result, the
/// other result has no further cell.
proof fn lemma_no_further_cell<D: Distance>(
    before: Seq<Event>,
    after1: Seq<Event>,
    cells1: Seq<Cell>,
    after2: Seq<Event>,
    cells2: Seq<Cell>,
    distance: &D,
    strategy: Strategy,
    max_cell_size: Option<Real>,
    all_weights: bool,
)
    requires
        before.len() <= usize::MAX,
        resampled(before, after1, cells1, distance, strategy, max_cell_size, all_weights),
        resampled(before, after2, cells2, distance, strategy, max_cell_size, all_weights),
        cells1.len() <= cells2.len(),
        same_cells(cells1, cells2, cells1.len() as int),
    ensures
        cells2.len() <= cells1.len(),
{
    let n1 = cells1.len() as int;
    if n1 < cells2.len() {
        // the seed of the next cell is in no cell of the shorter result, and
        // has a negative weight
        assert(cell_in_turn(before, cells2, n1, distance, strategy, max_cell_size));
        let seed = cells2[n1].members()[0];
        let used = used_before(cells2, n1, before.len());
        assert(eligible(before, used, seed as int));
        assert(!in_cells(cells2, n1, seed));
        lemma_same_cells_same_members(cells1, cells2, n1, seed);
        assert(!in_cells(cells1, n1, seed));
        assert(before[seed as int].central().key() >= 0);
    }
}

/// No event is a member of two cells.
pub proof fn lemma_cells_are_disjoint<D: Distance>(
    before: Seq<Event>,
    after: Seq<Event>,
    cells: Seq<Cell>,
    distance: &D,
    strategy: Strategy,
    max_cell_size: Option<Real>,
    all_weights: bool,
    a: int,
    b: int,
    i: usize,
)
    requires
        resampled(before, after, cells, distance, strategy, max_cell_size, all_weights),
        0 <= a < b < cells.len(),
        cells[a].members().contains(i),
    ensures
        !cells[b].members().contains(i),
{
    assert(cell_in_turn(before, cells, b, distance, strategy, max_cell_size));
    assert(in_cells(cells, b, i));
    let m = cells[b].members();
    let seed = m[0];
    if m.contains(i) {
        let j = choose|j: int| 0 <= j < m.len() && m[j] == i;
        if j == 0 {
            assert(eligible(before, used_before(cells, b, before.len()), seed as int));
        } else {
            assert(candidates(cells, b, before.len(), seed).contains(m[j]));
        }
    }
}

/// The events of one partition after resampling, with the cells that were
/// made.
#[derive(Debug)]
pub struct ResampledPartition {
    /// The events of the partition.
    pub events: Vec<Event>,
    /// The cells in the order in which they were made. Their members are
    /// indices into `events`.
    pub cells: Vec<Cell>,
}

/// Among the first `n` events of the pool, those of partition `p` out of
/// `num_partitions`, in the order of the pool. An event belongs to the
/// partition that is the remainder of its id.
pub open spec fn partition(events: Seq<Event>, num_partitions: usize, p: int, n: int) -> Seq<Event>
    decreases n,
{
    if n <= 0 {
        Seq::empty()
    } else if events[n - 1].id % num_partitions == p {
        partition(events, num_partitions, p, n - 1).push(events[n - 1])
    } else {
        partition(events, num_partitions, p, n - 1)
    }
}

/// Every event of a partition is an event of the pool.
pub proof fn lemma_partition_is_part(events: Seq<Event>, num_partitions: usize, p: int, n: int, j: int)
    requires
        0 <= n <= events.len(),
        0 <= j < partition(events, num_partitions, p, n).len(),
    ensures
        exists|i: int|
            0 <= i < n && #[trigger] events[i] == partition(events, num_partitions, p, n)[j] && events[i].id
                % num_partitions == p,
    decreases n,
{
    if events[n - 1].id % num_partitions == p {
        if j < partition(events, num_partitions, p, n - 1).len() {
            lemma_partition_is_part(events, num_partitions, p, n - 1, j);
        } else {
            assert(events[n - 1] == partition(events, num_partitions, p, n)[j]);
        }
    } else {
        lemma_partition_is_part(events, num_partitions, p, n - 1, j);
    }
}

/// Every event of the pool is an event of the partition of its id.
pub proof fn lemma_partition_covers(events: Seq<Event>, num_partitions: usize, n: int, i: int)
    requires
        num_partitions > 0,
        0 <= i < n <= events.len(),
    ensures
        ({
            let part = partition(events, num_partitions, (events[i].id % num_partitions) as int, n);
            exists|j: int| 0 <= j < part.len() && #[trigger] part[j] == events[i]
        }),
    decreases n,
{
    let p = (events[i].id % num_partitions) as int;
    if i == n - 1 {
        let j = partition(events, num_partitions, p, n - 1).len() as int;
        assert(partition(events, num_partitions, p, n)[j] == events[i]);
    } else {
        lemma_partition_covers(events, num_partitions, n - 1, i);
        let shorter = partition(events, num_partitions, p, n - 1);
        let j = choose|j: int| 0 <= j < shorter.len() && #[trigger] shorter[j] == events[i];
        assert(partition(events, num_partitions, p, n)[j] == events[i]);
    }
}

/// A setting with which no resampler can be built.
#[derive(Clone, Copy, Debug, PartialEq, Eq, Structural)]
pub enum ResamplingError {
    /// The pool cannot be split into zero partitions.
    NoPartitions,
}

/// Settings of a [`Resampler`].
pub struct ResamplerBuilder<D: Distance> {
    distance: D,
    strategy: Strategy,
    max_cell_size: Option<Real>,
    num_partitions: usize,
    all_weights: bool,
}

impl<D: Distance> ResamplerBuilder<D> {
    /// The settings as a tuple: distance, strategy, largest cell size, number
    /// of partitions, and whether all weights are averaged in a cell.
    pub closed spec fn settings(&self) -> (D, Strategy, Option<Real>, usize, bool) {
        (self.distance, self.strategy, self.max_cell_size, self.num_partitions, self.all_weights)
    }

    /// Whether all weights are averaged in a cell, and not only the central
    /// weight.
    pub open spec fn averages_all_weights(&self) -> bool {
        self.settings().4
    }

    /// Settings with the distance `distance`, seeds of the most negative
    /// weight, no largest cell size and a single partition, where only the
    /// central weight is averaged.
    pub fn new(distance: D) -> (r: Self)
        ensures
            r.settings() == (distance, Strategy::MostNegative, None::<Real>, 1usize, false),
    {
        ResamplerBuilder {
            distance,
            strategy: Strategy::MostNegative,
            max_cell_size: None,
            num_partitions: 1,
            all_weights: false,
        }
    }

    /// Set whether all weights are averaged in a cell, and not only the
    /// central weight.
    pub fn multiweight(self, all_weights: bool) -> (r: Self)
        ensures
            r.settings() == (
                self.settings().0,
                self.settings().1,
                self.settings().2,
                self.settings().3,
                all_weights,
            ),
    {
        ResamplerBuilder { all_weights, ..self }
    }

    /// Set the strategy for the selection of seeds.
    pub fn strategy(self, strategy: Strategy) -> (r: Self)
        ensures
            r.settings() == (self.settings().0, strategy, self.settings().2, self.settings().3, self.settings().4),
    {
        ResamplerBuilder { strategy, ..self }
    }

    /// Set the largest distance from the seed at which an event joins a cell.
    pub fn max_cell_size(self, max_cell_size: Option<Real>) -> (r: Self)
        ensures
            r.settings() == (
                self.settings().0,
                self.settings().1,
                max_cell_size,
                self.settings().3,
                self.settings().4,
            ),
    {
        ResamplerBuilder { max_cell_size, ..self }
    }

    /// Set the number of partitions.
    pub fn num_partitions(self, num_partitions: usize) -> (r: Self)
        ensures
            r.settings() == (
                self.settings().0,
                self.settings().1,
                self.settings().2,
                num_partitions,
                self.settings().4,
            ),
    {
        ResamplerBuilder { num_partitions, ..self }
    }

    /// The resampler with these settings. There must be at least one
    /// partition.
    pub fn build(self) -> (r: Result<Resampler<D>, ResamplingError>)
        ensures
            match r {
                Ok(resampler) => self.settings().3 > 0 && resampler.settings() == self.settings(),
                Err(e) => self.settings().3 == 0 && e == ResamplingError::NoPartitions,
            },
    {
        if self.num_partitions == 0 {
            Err(ResamplingError::NoPartitions)
        } else {
            Ok(
                Resampler {
                    distance: self.distance,
                    strategy: self.strategy,
                    max_cell_size: self.max_cell_size,
                    num_partitions: self.num_partitions,
                    all_weights: self.all_weights,
                },
            )
        }
    }
}

/// Cell resampling of an event pool in partitions.
pub struct Resampler<D: Distance> {
    distance: D,
    strategy: Strategy,
    max_cell_size: Option<Real>,
    num_partitions: usize,
    all_weights: bool,
}

impl<D: Distance> Resampler<D> {
    /// The settings as a tuple: distance, strategy, largest cell size, number
    /// of partitions, and whether all weights are averaged in a cell.
    pub closed spec fn settings(&self) -> (D, Strategy, Option<Real>, usize, bool) {
        (self.distance, self.strategy, self.max_cell_size, self.num_partitions, self.all_weights)
    }

    /// Whether all weights are averaged in a cell, and not only the central
    /// weight.
    pub open spec fn averages_all_weights(&self) -> bool {
        self.settings().4
    }

    /// There is at least one partition.
    pub open spec fn wf(&self) -> bool {
        self.settings().3 > 0
    }

    /// The partition `part` is the result of resampling the pool `pool` on its
    /// own. If only the central weight is averaged, an event has a negative
    /// central weight afterwards only as a member of a cell whose sum of
    /// weights stayed negative, and the sum of the central weights over the
    /// pool is kept up to rounding, unless a sum or a mean in a cell is
    /// infinite.
    pub open spec fn pool_resampled(&self, pool: Seq<Event>, part: ResampledPartition) -> bool {
        &&& resampled(
            pool,
            part.events@,
            part.cells@,
            &self.settings().0,
            self.settings().1,
            self.settings().2,
            self.averages_all_weights(),
        )
        &&& pool_wf(part.events@)
        &&& !self.averages_all_weights() ==> negative_only_in_negative_cells(part.events@, part.cells@)
        &&& !self.averages_all_weights() && pool.len() <= FRACTION_STEPS && cells_are_finite(part.cells@)
            ==> pool_total_is_kept(pool, part.events@)
    }

    /// The partition `part` is the result of resampling the partition `p` of
    /// the pool `events`.
    pub open spec fn partition_resampled(&self, events: Seq<Event>, p: int, part: ResampledPartition) -> bool {
        self.pool_resampled(partition(events, self.settings().3, p, events.len() as int), part)
    }

    /// The resampler can take the pool `events`: the weights are finite, the
    /// distance is defined for all events and, if all weights are averaged,
    /// all events have the same number of weights.
    pub open spec fn accepts(&self, events: Seq<Event>) -> bool {
        &&& pool_finite(events)
        &&& pool_accepted(&self.settings().0, events)
        &&& self.averages_all_weights() ==> same_number_of_weights(events)
    }

    /// Split the pool `events` into partitions: an event belongs to the
    /// partition that is the remainder of its id. The events of a partition
    /// stay in the order of the pool.
    pub fn split(&self, events: Vec<Event>) -> (pools: Vec<Vec<Event>>)
        requires
            self.wf(),
        ensures
            pools.len() == self.settings().3,
            forall|p: int|
                0 <= p < pools.len() ==> (#[trigger] pools[p])@ == partition(
                    events@,
                    self.settings().3,
                    p,
                    events.len() as int,
                ),
    {
        let ghost before = events@;
        let n = events.len();
        let k = self.num_partitions;
        // reverse the pool, so that events can be taken from its end in the
        // order of the pool
        let mut events = events;
        let mut reversed: Vec<Event> = Vec::new();
        while events.len() > 0
            invariant
                events.len() + reversed.len() == n,
                n == before.len(),
                forall|i: int| 0 <= i < events.len() ==> events[i] == before[i],
                forall|i: int| 0 <= i < reversed.len() ==> reversed[i] == before[n - 1 - i],
            decreases events.len(),
        {
            let ev = events.pop().unwrap();
            reversed.push(ev);
        }
        let mut pools: Vec<Vec<Event>> = Vec::new();
        while pools.len() < k
            invariant
                pools.len() <= k,
                forall|p: int| 0 <= p < pools.len() ==> (#[trigger] pools[p])@ == Seq::<Event>::empty(),
            decreases k - pools.len(),
        {
            pools.push(Vec::new());
        }
        let mut taken: usize = 0;
        while reversed.len() > 0
            invariant
                k > 0,
                k == self.num_partitions,
                pools.len() == k,
                n == before.len(),
                taken + reversed.len() == n,
                forall|i: int| 0 <= i < reversed.len() ==> reversed[i] == before[n - 1 - i],
                forall|p: int| 0 <= p < k ==> (#[trigger] pools[p])@ == partition(before, k, p, taken as int),
            decreases reversed.len(),
        {
            let ev = reversed.pop().unwrap();
            assert(ev == before[taken as int]);
            let target = ev.id % k;
            let ghost pools_before = pools@;
            pools[target].push(ev);
            taken += 1;
            proof {
                assert forall|p: int| 0 <= p < k implies (#[trigger] pools[p])@ == partition(before, k, p, taken as int) by {
                    assert(pools_before[p]@ == partition(before, k, p, taken - 1));
                    if p == target {
                        assert(pools[p]@ == pools_before[p]@.push(ev));
                    } else {
                        assert(pools[p] == pools_before[p]);
                    }
                }
            }
        }
        pools
    }

    /// Resample the events of one partition on their own, see
    /// [`resample_partition`].
    pub fn resample_one<N: NeighbourSearch>(&self, pool: Vec<Event>) -> (part: ResampledPartition)
        requires
            self.accepts(pool@),
        ensures
            self.pool_resampled(pool@, part),
    {
        let mut pool = pool;
        let cells = resample_partition::<D, N>(
            &mut pool,
            &self.distance,
            self.strategy,
            self.max_cell_size,
            self.all_weights,
        );
        ResampledPartition { events: pool, cells }
    }

    /// Resample the pool `events`.
    ///
    /// The pool is split into partitions with [`Resampler::split`], and each
    /// partition is resampled on its own with [`Resampler::resample_one`].
    pub fn resample<N: NeighbourSearch>(&self, events: Vec<Event>) -> (parts: Vec<ResampledPartition>)
        requires
            self.wf(),
            self.accepts(events@),
        ensures
            parts.len() == self.settings().3,
            forall|p: int| 0 <= p < parts.len() ==> self.partition_resampled(events@, p, #[trigger] parts[p]),
    {
        let ghost before = events@;
        let n = events.len();
        let k = self.num_partitions;
        let mut pools = self.split(events);
        let mut parts: Vec<ResampledPartition> = Vec::new();
        while pools.len() > 0
            invariant
                self.wf(),
                k == self.num_partitions,
                n == before.len(),
                pools.len() + parts.len() == k,
                self.accepts(before),
                forall|p: int| 0 <= p < pools.len() ==> (#[trigger] pools[p])@ == partition(before, k, p, n as int),
                forall|p: int|
                    0 <= p < parts.len() ==> self.partition_resampled(before, k - 1 - p, #[trigger] parts[p]),
            decreases pools.len(),
        {
            let pool = pools.pop().unwrap();
            let ghost p = pools.len() as int;
            proof {
                assert(pool@ == partition(before, k, p, n as int));
                lemma_partition_is_accepted(self, before, p);
            }
            let ghost parts_before = parts@;
            let part = self.resample_one::<N>(pool);
            assert(self.partition_resampled(before, p, part));
            parts.push(part);
            proof {
                assert forall|q: int| 0 <= q < parts.len() implies self.partition_resampled(
                    before,
                    k - 1 - q,
                    #[trigger] parts[q],
                ) by {
                    if q < parts_before.len() {
                        assert(parts[q] == parts_before[q]);
                    }
                }
            }
        }
        // the partitions were resampled from the last to the first
        let mut ordered: Vec<ResampledPartition> = Vec::new();
        while parts.len() > 0
            invariant
                k == self.num_partitions,
                parts.len() + ordered.len() == k,
                forall|p: int|
                    0 <= p < parts.len() ==> self.partition_resampled(before, k - 1 - p, #[trigger] parts[p]),
                forall|p: int| 0 <= p < ordered.len() ==> self.partition_resampled(before, p, #[trigger] ordered[p]),
            decreases parts.len(),
        {
            let part = parts.pop().unwrap();
            ordered.push(part);
        }
        ordered
    }
}

/// A resampler that can take a pool can take each of its partitions.
pub proof fn lemma_partition_is_accepted<D: Distance>(resampler: &Resampler<D>, events: Seq<Event>, p: int)
    requires
        resampler.accepts(events),
    ensures
        resampler.accepts(partition(events, resampler.settings().3, p, events.len() as int)),
{
    let k = resampler.settings().3;
    let n = events.len() as int;
    let pool = partition(events, k, p, n);
    assert forall|j: int| 0 <= j < pool.len() implies (#[trigger] pool[j]).finite() && resampler.settings().0.accepts(
        pool[j].outgoing@,
    ) && (resampler.averages_all_weights() ==> pool[j].weights.len() == pool[0].weights.len()) by {
        lemma_partition_is_part(events, k, p, n, j);
        lemma_partition_is_part(events, k, p, n, 0);
        let i = choose|i: int| 0 <= i < n && #[trigger] events[i] == partition(events, k, p, n)[j];
        let i0 = choose|i: int| 0 <= i < n && #[trigger] events[i] == partition(events, k, p, n)[0];
        assert(events[i].finite());
        assert(events[i0].finite());
        assert(resampler.settings().0.accepts(events[i].outgoing@));
        if resampler.averages_all_weights() {
            assert(events[i].weights.len() == events[0].weights.len());
            assert(events[i0].weights.len() == events[0].weights.len());
        }
    }
}

/// The seed that a strategy chooses depends on the weights and ids of the
/// events that are in no cell only.
proof fn lemma_is_seed_congruence(strategy: Strategy, e1: Seq<Event>, e2: Seq<Event>, used: Seq<bool>, s: int)
    requires
        e1.len() == e2.len(),
        used.len() == e1.len(),
        is_seed(strategy, e1, used, s),
        forall|i: int| 0 <= i < e1.len() ==> (#[trigger] e1[i]).id == e2[i].id,
        forall|i: int| 0 <= i < e1.len() && !used[i] ==> (#[trigger] e1[i]).weights@ == e2[i].weights@,
    ensures
        is_seed(strategy, e2, used, s),
{
    assert forall|j: int| eligible(e2, used, j) implies precedes(strategy, e2, s, j) by {
        assert(e1[j].weights@ == e2[j].weights@);
        assert(eligible(e1, used, j));
        assert(precedes(strategy, e1, s, j));
    }
}

} // verus!
