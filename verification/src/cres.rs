//! Main cell resampling functionality
//!
//! The usual workflow is to construct a [Cres] object from a
//! [CresBuilder] and to call [Cres::run] on the events that were read.
use vstd::prelude::*;
use crate::cell::{chosen_sum, exact_sum, lemma_members_are_chosen, pool_size_sum, pool_sum};
use crate::cell_collector::{all_summaries, CellCollector};
use crate::distance::Distance;
use crate::event::{pool_wf, Event};
use crate::number::{size_of, Real, FRACTION_STEPS, ROUNDING_STEPS};
use crate::resampler::{
    cells_are_finite, lemma_partition_covers, lemma_total_step, partition, pool_total_is_kept, ResampledPartition,
    Resampler,
};
use crate::sorting::{is_permutation, key_le, lemma_sorted_keys, sort_keys};
use crate::traits::NeighbourSearch;
use crate::unweight::{lemma_unweighted_is_not_negative, unweighted, unweights, Unweighter};

verus! {

/// Build a new [Cres] object
#[derive(Debug)]
pub struct CresBuilder<R, C, S, U, W> {
    /// Read in events
    pub reader: R,
    /// Convert events into the internal format
    pub converter: C,
    /// Resample events
    pub resampler: S,
    /// Unweight events
    pub unweighter: U,
    /// Write out events
    pub writer: W,
}

impl<R, C, S, U, W> CresBuilder<R, C, S, U, W> {
    /// Construct a [Cres] object
    pub fn build(self) -> (r: Cres<R, C, S, U, W>)
        ensures
            r.parts() == (self.reader, self.converter, self.resampler, self.unweighter, self.writer),
    {
        Cres {
            reader: self.reader,
            converter: self.converter,
            resampler: self.resampler,
            unweighter: self.unweighter,
            writer: self.writer,
        }
    }
}

/// Main cell resampler
#[derive(Debug)]
pub struct Cres<R, C, S, U, W> {
    reader: R,
    converter: C,
    resampler: S,
    unweighter: U,
    writer: W,
}

impl<R, C, S, U, W> Cres<R, C, S, U, W> {
    /// The reader, the converter, the resampler, the unweighter and the
    /// writer.
    pub closed spec fn parts(&self) -> (R, C, S, U, W) {
        (self.reader, self.converter, self.resampler, self.unweighter, self.writer)
    }

    /// Take the cell resampler apart again.
    pub fn into_builder(self) -> (r: CresBuilder<R, C, S, U, W>)
        ensures
            self.parts() == (r.reader, r.converter, r.resampler, r.unweighter, r.writer),
    {
        CresBuilder {
            reader: self.reader,
            converter: self.converter,
            resampler: self.resampler,
            unweighter: self.unweighter,
            writer: self.writer,
        }
    }
}

/// A cell resampling error
#[derive(Debug)]
pub enum CresError<E1, E2, E3, E4, E5, E6> {
    /// Error reading an event
    ReadErr(E1),
    /// Error rewinding the event reader
    RewindErr(E2),
    /// Error converting an event to the internal format
    ConversionErr(E3),
    /// Error encountered during resampling
    ResamplingErr(E4),
    /// Error encountered during unweighting
    UnweightErr(E5),
    /// Error writing resampled events
    WriteErr(E6),
    /// Encountered event with invalid id
    IdErr(usize),
}

/// The index of the first of the first `n` events whose id is not zero, if
/// there is one.
pub open spec fn first_nonzero_id(events: Seq<Event>, n: int) -> Option<int>
    decreases n,
{
    if n <= 0 {
        None
    } else {
        match first_nonzero_id(events, n - 1) {
            Some(i) => Some(i),
            None => if events[n - 1].id != 0 {
                Some(n - 1)
            } else {
                None
            },
        }
    }
}

/// Give each event its position in the pool as id.
///
/// Events come without an id, that is with id zero. An event with another id
/// is an error; the events before it have their new id then.
pub fn assign_ids(events: &mut Vec<Event>) -> (r: Result<(), usize>)
    ensures
        final(events).len() == old(events).len(),
        forall|i: int|
            0 <= i < old(events).len() ==> (#[trigger] final(events)[i]).weights == old(events)[i].weights
                && final(events)[i].outgoing == old(events)[i].outgoing,
        match r {
            Ok(()) => first_nonzero_id(old(events)@, old(events).len() as int).is_none() && forall|i: int|
                0 <= i < old(events).len() ==> (#[trigger] final(events)[i]).id == i,
            Err(id) => first_nonzero_id(old(events)@, old(events).len() as int) matches Some(i) && id == old(
                events,
            )[i].id,
        },
{
    let n = events.len();
    let mut id: usize = 0;
    while id < n
        invariant
            id <= n,
            n == events.len(),
            n == old(events).len(),
            first_nonzero_id(old(events)@, id as int).is_none(),
            forall|i: int| id <= i < n ==> events[i] == old(events)[i],
            forall|i: int|
                0 <= i < n ==> (#[trigger] events[i]).weights == old(events)[i].weights && events[i].outgoing == old(
                    events,
                )[i].outgoing,
            forall|i: int| 0 <= i < id ==> (#[trigger] events[i]).id == i,
        decreases n - id,
    {
        if events[id].id != 0 {
            proof {
                lemma_first_nonzero_id_found(old(events)@, id as int, n as int);
            }
            return Err(events[id].id);
        }
        events[id].id = id;
        id += 1;
    }
    Ok(())
}

proof fn lemma_first_nonzero_id_found(events: Seq<Event>, i: int, n: int)
    requires
        0 <= i < n,
        first_nonzero_id(events, i).is_none(),
        events[i].id != 0,
    ensures
        first_nonzero_id(events, n) == Some(i),
    decreases n,
{
    if n > i + 1 {
        lemma_first_nonzero_id_found(events, i, n - 1);
    }
}

/// The event `a` comes no later than the event `b` in the order of events: by
/// central weight, then by id.
pub open spec fn event_le(a: Event, b: Event) -> bool {
    a.central().key() < b.central().key() || (a.central().key() == b.central().key() && a.id <= b.id)
}

/// Sort the events by central weight, and by id among events of equal weight.
pub fn sort_events(events: Vec<Event>) -> (out: Vec<Event>)
    requires
        pool_wf(events@),
    ensures
        out.len() == events.len(),
        forall|i: int, j: int| 0 <= i < j < out.len() ==> event_le(#[trigger] out[i], #[trigger] out[j]),
        exists|order: Seq<int>|
            is_permutation(order, events.len() as int) && forall|j: int|
                0 <= j < out.len() ==> #[trigger] out[j] == events[order[j]],
{
    let ghost before = events@;
    let n = events.len();
    let mut keys: Vec<(i64, usize, usize)> = Vec::new();
    let mut i: usize = 0;
    while i < n
        invariant
            i <= n,
            n == events.len(),
            keys.len() == i,
            pool_wf(events@),
            forall|k: int|
                0 <= k < i ==> #[trigger] keys[k] == (
                    events[k].central().key() as i64,
                    events[k].id,
                    k as usize,
                ) && keys[k].0 == events[k].central().key(),
        decreases n - i,
    {
        assert(events[i as int].wf());
        keys.push((events[i].weight().sort_key(), events[i].id, i));
        i += 1;
    }
    let ghost keys0 = keys@;
    sort_keys(&mut keys);
    proof {
        lemma_sorted_keys(keys0, keys@);
    }
    // move the events into slots, from which they can be taken in any order
    let mut events = events;
    let mut reversed: Vec<Event> = Vec::new();
    while events.len() > 0
        invariant
            events.len() + reversed.len() == n,
            n == before.len(),
            forall|i: int| 0 <= i < events.len() ==> events[i] == before[i],
            forall|i: int| 0 <= i < reversed.len() ==> reversed[i] == before[n - 1 - i],
        decreases events.len(),
    {
        let ev = events.pop().unwrap();
        reversed.push(ev);
    }
    let mut slots: Vec<Option<Event>> = Vec::new();
    while reversed.len() > 0
        invariant
            slots.len() + reversed.len() == n,
            n == before.len(),
            forall|i: int| 0 <= i < reversed.len() ==> reversed[i] == before[n - 1 - i],
            forall|i: int| 0 <= i < slots.len() ==> slots[i] == Some(before[i]),
        decreases reversed.len(),
    {
        let ev = reversed.pop().unwrap();
        slots.push(Some(ev));
    }
    let mut out: Vec<Event> = Vec::new();
    let mut j: usize = 0;
    while j < n
        invariant
            j <= n,
            n == before.len(),
            keys.len() == n,
            slots.len() == n,
            out.len() == j,
            keys@.no_duplicates(),
            forall|k: int| 0 <= k < n ==> (#[trigger] keys[k]).2 < n && keys[k] == keys0[keys[k].2 as int],
            forall|k: int| 0 <= k < j ==> #[trigger] out[k] == before[keys[k].2 as int],
            forall|p: int|
                0 <= p < n ==> #[trigger] slots[p] == if exists|k: int| 0 <= k < j && (#[trigger] keys[k]).2 == p {
                    None
                } else {
                    Some(before[p])
                },
        decreases n - j,
    {
        let pos = keys[j].2;
        proof {
            if exists|k: int| 0 <= k < j && (#[trigger] keys[k]).2 == pos {
                let k = choose|k: int| 0 <= k < j && (#[trigger] keys[k]).2 == pos;
                assert(keys[k] == keys0[pos as int]);
                assert(keys[j as int] == keys0[pos as int]);
            }
        }
        let ghost slots_before = slots@;
        let mut taken: Option<Event> = None;
        std::mem::swap(&mut taken, &mut slots[pos]);
        let ev = taken.unwrap();
        out.push(ev);
        proof {
            assert forall|p: int| 0 <= p < n implies #[trigger] slots[p] == if exists|k: int|
                0 <= k < j + 1 && (#[trigger] keys[k]).2 == p {
                None
            } else {
                Some(before[p])
            } by {
                if p == pos {
                    assert(keys[j as int].2 == p);
                } else {
                    assert(slots[p] == slots_before[p]);
                    if exists|k: int| 0 <= k < j + 1 && (#[trigger] keys[k]).2 == p {
                        let k = choose|k: int| 0 <= k < j + 1 && (#[trigger] keys[k]).2 == p;
                        assert(k < j);
                    }
                }
            }
        }
        j += 1;
    }
    proof {
        let order = Seq::new(n as nat, |k: int| keys[k].2 as int);
        lemma_sorted_keys(keys0, keys@);
        assert(is_permutation(order, n as int));
        assert forall|k: int| 0 <= k < out.len() implies #[trigger] out[k] == before[order[k]] by {}
        assert forall|a: int, b: int| 0 <= a < b < out.len() implies event_le(#[trigger] out[a], #[trigger] out[b]) by {
            assert(key_le(keys[a], keys[b]));
            assert(keys[a] == keys0[keys[a].2 as int]);
            assert(keys[b] == keys0[keys[b].2 as int]);
        }
    }
    out
}

/// The events of the first `k` partitions, one partition after the other.
pub open spec fn pool_of(parts: Seq<ResampledPartition>, k: int) -> Seq<Event>
    decreases k,
{
    if k <= 0 {
        Seq::empty()
    } else {
        pool_of(parts, k - 1) + parts[k - 1].events@
    }
}

/// Join the events of all partitions into one pool.
pub fn into_pool(parts: Vec<ResampledPartition>) -> (pool: Vec<Event>)
    ensures
        pool@ == pool_of(parts@, parts.len() as int),
{
    let ghost before = parts@;
    let k = parts.len();
    let mut parts = parts;
    // take the partitions from the end, and the events of each from its end
    let mut reversed: Vec<Event> = Vec::new();
    while parts.len() > 0
        invariant
            k == before.len(),
            parts.len() <= k,
            parts@ == before.take(parts.len() as int),
            pool_of(before, parts.len() as int) + reversed@.reverse() == pool_of(before, k as int),
        decreases parts.len(),
    {
        let part = parts.pop().unwrap();
        let ghost p = parts.len() as int;
        assert(part == before[p]);
        let mut events = part.events;
        let ghost reversed0 = reversed@;
        while events.len() > 0
            invariant
                0 <= p < before.len(),
                events.len() <= before[p].events@.len(),
                events@ == before[p].events@.take(events.len() as int),
                reversed@.reverse() == before[p].events@.skip(events.len() as int) + reversed0.reverse(),
            decreases events.len(),
        {
            let ghost len = events.len() as int;
            let ghost r0 = reversed@;
            let ev = events.pop().unwrap();
            reversed.push(ev);
            proof {
                assert(ev == before[p].events@[len - 1]);
                assert(reversed@.reverse() =~= seq![ev] + r0.reverse());
                assert(before[p].events@.skip(len - 1) =~= seq![ev] + before[p].events@.skip(len));
                assert(events@ =~= before[p].events@.take(len - 1));
            }
        }
        proof {
            assert(before[p].events@.skip(0) =~= before[p].events@);
            assert(pool_of(before, p + 1) == pool_of(before, p) + before[p].events@);
            assert(pool_of(before, p) + (before[p].events@ + reversed0.reverse()) =~= pool_of(before, p + 1)
                + reversed0.reverse());
            assert(parts@ =~= before.take(p));
        }
    }
    let mut pool: Vec<Event> = Vec::new();
    let ghost all_reversed = reversed@;
    while reversed.len() > 0
        invariant
            reversed.len() <= all_reversed.len(),
            reversed@ == all_reversed.take(reversed.len() as int),
            pool@ == all_reversed.skip(reversed.len() as int).reverse(),
        decreases reversed.len(),
    {
        let ghost len = reversed.len() as int;
        let ev = reversed.pop().unwrap();
        pool.push(ev);
        proof {
            assert(reversed@ =~= all_reversed.take(len - 1));
            assert(all_reversed.skip(len - 1).reverse() =~= all_reversed.skip(len).reverse().push(ev));
        }
    }
    proof {
        assert(all_reversed.skip(0) =~= all_reversed);
        assert(pool_of(before, 0) + all_reversed.reverse() =~= all_reversed.reverse());
    }
    pool
}

/// The positions among the first `n` events of the pool at which the central
/// weight is not zero, in ascending order.
pub open spec fn nonzero_positions(pool: Seq<Event>, n: int) -> Seq<int>
    decreases n,
{
    if n <= 0 {
        Seq::empty()
    } else if pool[n - 1].central().key() != 0 {
        nonzero_positions(pool, n - 1).push(n - 1)
    } else {
        nonzero_positions(pool, n - 1)
    }
}

/// Remove the events with a central weight of zero. The other events stay in
/// their order.
pub fn drop_zero_weights(events: Vec<Event>) -> (out: Vec<Event>)
    requires
        pool_wf(events@),
    ensures
        out.len() == nonzero_positions(events@, events.len() as int).len(),
        forall|j: int|
            0 <= j < out.len() ==> #[trigger] out[j] == events[nonzero_positions(events@, events.len() as int)[j]],
        pool_wf(out@),
{
    let ghost before = events@;
    let n = events.len();
    let mut events = events;
    let mut reversed: Vec<Event> = Vec::new();
    while events.len() > 0
        invariant
            events.len() + reversed.len() == n,
            n == before.len(),
            forall|i: int| 0 <= i < events.len() ==> events[i] == before[i],
            forall|i: int| 0 <= i < reversed.len() ==> reversed[i] == before[n - 1 - i],
        decreases events.len(),
    {
        let ev = events.pop().unwrap();
        reversed.push(ev);
    }
    let mut out: Vec<Event> = Vec::new();
    let mut seen: usize = 0;
    while reversed.len() > 0
        invariant
            seen + reversed.len() == n,
            n == before.len(),
            pool_wf(before),
            pool_wf(out@),
            forall|i: int| 0 <= i < reversed.len() ==> reversed[i] == before[n - 1 - i],
            out.len() == nonzero_positions(before, seen as int).len(),
            forall|j: int| 0 <= j < out.len() ==> #[trigger] out[j] == before[nonzero_positions(before, seen as int)[j]],
            forall|j: int|
                0 <= j < nonzero_positions(before, seen as int).len() ==> 0 <= #[trigger] nonzero_positions(
                    before,
                    seen as int,
                )[j] < seen,
        decreases reversed.len(),
    {
        let ev = reversed.pop().unwrap();
        assert(ev == before[seen as int]);
        assert(before[seen as int].wf());
        if !ev.weight().is_zero() {
            out.push(ev);
        }
        seen += 1;
    }
    out
}

/// `order` lists the positions with nonzero central weight of the pool, each
/// once.
pub open spec fn lists_nonzero(order: Seq<int>, pool: Seq<Event>) -> bool {
    &&& order.no_duplicates()
    &&& forall|j: int|
        0 <= j < order.len() ==> 0 <= #[trigger] order[j] < pool.len() && pool[order[j]].central().key() != 0
    &&& forall|i: int| 0 <= i < pool.len() && (#[trigger] pool[i]).central().key() != 0 ==> order.contains(i)
}

/// The events `out` are what is left of the pool `pool` after unweighting
/// with the smallest absolute weight `min_wt`, in the order of events.
///
/// For some outcome of the unweighting of each event, `out` holds the
/// unweighted events in the order of [`event_le`]. With a smallest absolute
/// weight of zero these are all events. Else they are the events whose weight
/// is not zero after unweighting.
pub open spec fn finished(min_wt: Real, pool: Seq<Event>, out: Seq<Event>) -> bool {
    &&& forall|i: int, j: int| 0 <= i < j < out.len() ==> event_le(#[trigger] out[i], #[trigger] out[j])
    &&& exists|unweighted: Seq<Event>, order: Seq<int>| #[trigger] selects(min_wt, pool, out, unweighted, order)
}

/// The events `unweighted` are the events of the pool `pool` after
/// unweighting, and `out` holds those of them that are kept, in the order
/// that `order` gives.
pub open spec fn selects(
    min_wt: Real,
    pool: Seq<Event>,
    out: Seq<Event>,
    unweighted: Seq<Event>,
    order: Seq<int>,
) -> bool {
    &&& unweighted.len() == pool.len()
    &&& forall|i: int| 0 <= i < pool.len() ==> unweights(min_wt, pool[i], #[trigger] unweighted[i])
    &&& if min_wt.key() == 0 {
        is_permutation(order, unweighted.len() as int)
    } else {
        lists_nonzero(order, unweighted)
    }
    &&& order.len() == out.len()
    &&& forall|j: int| 0 <= j < out.len() ==> #[trigger] out[j] == unweighted[order[j]]
}

/// The pool with each event's position as its id.
pub open spec fn numbered(events: Seq<Event>) -> Seq<Event> {
    Seq::new(
        events.len(),
        |i: int| Event { id: i as usize, weights: events[i].weights, outgoing: events[i].outgoing },
    )
}

proof fn lemma_finished(min_wt: Real, pool: Seq<Event>, out: Seq<Event>, unweighted: Seq<Event>, order: Seq<int>)
    requires
        forall|i: int, j: int| 0 <= i < j < out.len() ==> event_le(#[trigger] out[i], #[trigger] out[j]),
        selects(min_wt, pool, out, unweighted, order),
    ensures
        finished(min_wt, pool, out),
{
}

proof fn lemma_nonzero_positions(pool: Seq<Event>, n: int)
    requires
        0 <= n <= pool.len(),
    ensures
        forall|j: int|
            0 <= j < nonzero_positions(pool, n).len() ==> 0 <= #[trigger] nonzero_positions(pool, n)[j] < n && pool[nonzero_positions(
                pool,
                n,
            )[j]].central().key() != 0,
        forall|a: int, b: int|
            0 <= a < b < nonzero_positions(pool, n).len() ==> nonzero_positions(pool, n)[a] < nonzero_positions(pool, n)[b],
        forall|i: int| 0 <= i < n && (#[trigger] pool[i]).central().key() != 0 ==> nonzero_positions(pool, n).contains(i),
    decreases n,
{
    if n > 0 {
        lemma_nonzero_positions(pool, n - 1);
        let shorter = nonzero_positions(pool, n - 1);
        let longer = nonzero_positions(pool, n);
        assert forall|i: int| 0 <= i < n && (#[trigger] pool[i]).central().key() != 0 implies longer.contains(i) by {
            if i < n - 1 {
                assert(shorter.contains(i));
                let j = choose|j: int| 0 <= j < shorter.len() && shorter[j] == i;
                assert(longer[j] == i);
            } else {
                assert(longer[longer.len() - 1] == i);
            }
        }
    }
}

/// In a pool whose events have their position as id, the events of a
/// partition have ids below `n` with the remainder of the partition, in
/// ascending order.
proof fn lemma_partition_ids(events: Seq<Event>, k: usize, p: int, n: int)
    requires
        k > 0,
        0 <= n <= events.len(),
        forall|i: int| 0 <= i < events.len() ==> (#[trigger] events[i]).id == i,
    ensures
        forall|j: int|
            0 <= j < partition(events, k, p, n).len() ==> (#[trigger] partition(events, k, p, n)[j]).id < n && partition(
                events,
                k,
                p,
                n,
            )[j].id % k == p,
        forall|a: int, b: int|
            0 <= a < b < partition(events, k, p, n).len() ==> (#[trigger] partition(events, k, p, n)[a]).id < (#[trigger] partition(
                events,
                k,
                p,
                n,
            )[b]).id,
    decreases n,
{
    if n > 0 {
        lemma_partition_ids(events, k, p, n - 1);
        let shorter = partition(events, k, p, n - 1);
        let longer = partition(events, k, p, n);
        assert forall|j: int| 0 <= j < longer.len() implies (#[trigger] longer[j]).id < n && longer[j].id % k == p by {
            if j < shorter.len() {
                assert(shorter[j].id < n - 1);
            }
        }
        assert forall|a: int, b: int| 0 <= a < b < longer.len() implies (#[trigger] longer[a]).id < (#[trigger] longer[b]).id by {
            if b < shorter.len() {
                assert(shorter[a].id < shorter[b].id);
            } else {
                assert(shorter[a].id < n - 1);
            }
        }
    }
}

/// The partition and the position in it of the event at position `x` of the
/// pool of the first `k` partitions.
pub open spec fn locate(parts: Seq<ResampledPartition>, k: int, x: int) -> (int, int)
    decreases k,
{
    if k <= 0 {
        (0, 0)
    } else if x >= pool_of(parts, k - 1).len() {
        (k - 1, x - pool_of(parts, k - 1).len())
    } else {
        locate(parts, k - 1, x)
    }
}

proof fn lemma_locate(parts: Seq<ResampledPartition>, k: int, x: int)
    requires
        0 <= k <= parts.len(),
        0 <= x < pool_of(parts, k).len(),
    ensures
        0 <= locate(parts, k, x).0 < k,
        0 <= locate(parts, k, x).1 < parts[locate(parts, k, x).0].events@.len(),
        pool_of(parts, k)[x] == parts[locate(parts, k, x).0].events@[locate(parts, k, x).1],
    decreases k,
{
    if k > 0 && x < pool_of(parts, k - 1).len() {
        lemma_locate(parts, k - 1, x);
    }
}

proof fn lemma_locate_injective(parts: Seq<ResampledPartition>, k: int, x: int, y: int)
    requires
        0 <= k <= parts.len(),
        0 <= x < pool_of(parts, k).len(),
        0 <= y < pool_of(parts, k).len(),
        locate(parts, k, x) == locate(parts, k, y),
    ensures
        x == y,
    decreases k,
{
    if k > 0 {
        let len = pool_of(parts, k - 1).len();
        if x < len {
            lemma_locate(parts, k - 1, x);
        }
        if y < len {
            lemma_locate(parts, k - 1, y);
        }
        if x < len && y < len {
            lemma_locate_injective(parts, k - 1, x, y);
        }
    }
}

proof fn lemma_located(parts: Seq<ResampledPartition>, k: int, p: int, j: int) -> (x: int)
    requires
        0 <= p < k <= parts.len(),
        0 <= j < parts[p].events@.len(),
    ensures
        0 <= x < pool_of(parts, k).len(),
        pool_of(parts, k)[x] == parts[p].events@[j],
    decreases k,
{
    if p == k - 1 {
        pool_of(parts, k - 1).len() + j
    } else {
        lemma_located(parts, k - 1, p, j)
    }
}

/// If no event of the pool has a negative central weight, then no event that
/// is left after unweighting has one.
pub proof fn lemma_no_negative_weight_is_added(min_wt: Real, pool: Seq<Event>, out: Seq<Event>)
    requires
        min_wt.key() >= 0,
        pool_wf(pool),
        forall|i: int| 0 <= i < pool.len() ==> (#[trigger] pool[i]).central().key() >= 0,
        finished(min_wt, pool, out),
    ensures
        forall|j: int| 0 <= j < out.len() ==> (#[trigger] out[j]).central().key() >= 0,
{
    let (unweighted_pool, order) = choose|unweighted_pool: Seq<Event>, order: Seq<int>| #[trigger]
        selects(min_wt, pool, out, unweighted_pool, order);
    assert forall|j: int| 0 <= j < out.len() implies (#[trigger] out[j]).central().key() >= 0 by {
        let i = order[j];
        assert(out[j] == unweighted_pool[i]);
        assert(0 <= i < pool.len()) by {
            if min_wt.key() == 0 {
                assert(is_permutation(order, unweighted_pool.len() as int));
            } else {
                assert(lists_nonzero(order, unweighted_pool));
            }
        }
        assert(unweights(min_wt, pool[i], unweighted_pool[i]));
        assert(pool[i].wf());
        let u = choose|u: Real|
            0 <= u.key() < crate::number::ONE_BITS && unweighted_pool[i].weights@ == pool[i].weights@.update(
                0,
                #[trigger] unweighted(pool[i].central(), min_wt, u),
            );
        lemma_unweighted_is_not_negative(pool[i].central(), min_wt, u);
    }
}

/// If every cell has reached a sum of weights that is not negative, no event
/// that leaves the pipeline has a negative central weight. This is for
/// resampling of the central weight only.
pub proof fn lemma_no_negative_weight_is_left<D: Distance>(
    resampler: Resampler<D>,
    min_wt: Real,
    events: Seq<Event>,
    parts: Seq<ResampledPartition>,
    out: Seq<Event>,
)
    requires
        !resampler.averages_all_weights(),
        min_wt.key() >= 0,
        forall|p: int| 0 <= p < parts.len() ==> resampler.partition_resampled(events, p, #[trigger] parts[p]),
        forall|p: int, c: int|
            0 <= p < parts.len() && 0 <= c < parts[p].cells.len() ==> (#[trigger] parts[p].cells[c]).spec_weight_sum().key()
                >= 0,
        finished(min_wt, pool_of(parts, parts.len() as int), out),
    ensures
        forall|j: int| 0 <= j < out.len() ==> (#[trigger] out[j]).central().key() >= 0,
{
    let k = parts.len() as int;
    let pool = pool_of(parts, k);
    assert forall|p: int| 0 <= p < parts.len() implies members_in_range(#[trigger] parts[p]) by {
        let part = parts[p];
        assert(resampler.partition_resampled(events, p, part));
        assert forall|c: int, j: int|
            0 <= c < part.cells.len() && 0 <= j < part.cells[c].members().len() implies (#[trigger] part.cells[c].members()[j])
            < part.events.len() by {
            assert(part.cells[c].members().contains(part.cells[c].members()[j]));
        }
    }
    lemma_pool_of_wf(parts, k);
    assert forall|x: int| 0 <= x < pool.len() implies (#[trigger] pool[x]).central().key() >= 0 by {
        lemma_locate(parts, k, x);
        let (p, i) = locate(parts, k, x);
        let part = parts[p];
        assert(resampler.partition_resampled(events, p, part));
        assert forall|c: int| 0 <= c < part.cells.len() implies (#[trigger] part.cells[c]).spec_weight_sum().key() >= 0 by {
            assert(parts[p].cells[c].spec_weight_sum().key() >= 0);
        }
        assert(part.events[i].central().key() >= 0);
    }
    lemma_no_negative_weight_is_added(min_wt, pool, out);
}

/// The sums of the first `n` central weights depend on these weights only.
proof fn lemma_pool_sum_congruence(a: Seq<Event>, b: Seq<Event>, n: int)
    requires
        0 <= n <= a.len(),
        n <= b.len(),
        forall|i: int| 0 <= i < n ==> (#[trigger] a[i]).central() == b[i].central(),
    ensures
        pool_sum(a, n) == pool_sum(b, n),
        pool_size_sum(a, n) == pool_size_sum(b, n),
        pool_size_sum(a, n) >= 0,
    decreases n,
{
    if n > 0 {
        lemma_pool_sum_congruence(a, b, n - 1);
        assert(a[n - 1].central() == b[n - 1].central());
    }
}

/// The sum over one pool after another is the sum of their sums.
proof fn lemma_pool_sum_concat(a: Seq<Event>, b: Seq<Event>, n: int)
    requires
        0 <= n <= b.len(),
    ensures
        pool_sum(a + b, a.len() + n) == pool_sum(a, a.len() as int) + pool_sum(b, n),
    decreases n,
{
    if n > 0 {
        lemma_pool_sum_concat(a, b, n - 1);
        assert((a + b)[a.len() + n - 1] == b[n - 1]);
    } else {
        assert forall|i: int| 0 <= i < a.len() implies (#[trigger] (a + b)[i]).central() == a[i].central() by {}
        lemma_pool_sum_congruence(a + b, a, a.len() as int);
    }
}

/// The sum of the central weights over the first `m` partitions of the first
/// `n` events of a pool, in units of the smallest positive number.
pub open spec fn split_total(events: Seq<Event>, k: usize, m: int, n: int) -> int
    decreases m,
{
    if m <= 0 {
        0
    } else {
        split_total(events, k, m - 1, n) + pool_sum(
            partition(events, k, m - 1, n),
            partition(events, k, m - 1, n).len() as int,
        )
    }
}

/// The sum of the sizes of the central weights over the first `m` partitions
/// of the first `n` events of a pool.
pub open spec fn split_sizes(events: Seq<Event>, k: usize, m: int, n: int) -> int
    decreases m,
{
    if m <= 0 {
        0
    } else {
        split_sizes(events, k, m - 1, n) + pool_size_sum(
            partition(events, k, m - 1, n),
            partition(events, k, m - 1, n).len() as int,
        )
    }
}

/// The number of events in the first `m` partitions of the first `n` events
/// of a pool.
pub open spec fn split_len(events: Seq<Event>, k: usize, m: int, n: int) -> int
    decreases m,
{
    if m <= 0 {
        0
    } else {
        split_len(events, k, m - 1, n) + partition(events, k, m - 1, n).len()
    }
}

/// One more event of the pool goes into one partition.
proof fn lemma_split_step(events: Seq<Event>, k: usize, m: int, n: int)
    requires
        1 <= n <= events.len(),
        0 <= m,
        k > 0,
    ensures
        split_total(events, k, m, n) == split_total(events, k, m, n - 1) + if events[n - 1].id % k < m {
            events[n - 1].central().units()
        } else {
            0
        },
        split_sizes(events, k, m, n) == split_sizes(events, k, m, n - 1) + if events[n - 1].id % k < m {
            size_of(events[n - 1].central().units())
        } else {
            0
        },
        split_len(events, k, m, n) == split_len(events, k, m, n - 1) + if events[n - 1].id % k < m {
            1int
        } else {
            0int
        },
    decreases m,
{
    if m > 0 {
        lemma_split_step(events, k, m - 1, n);
        let shorter = partition(events, k, m - 1, n - 1);
        let longer = partition(events, k, m - 1, n);
        if events[n - 1].id % k == m - 1 {
            assert(longer == shorter.push(events[n - 1]));
            assert forall|i: int| 0 <= i < shorter.len() implies (#[trigger] longer[i]).central() == shorter[i].central() by {}
            lemma_pool_sum_congruence(longer, shorter, shorter.len() as int);
        } else {
            assert(longer == shorter);
        }
    }
}

/// Nothing is in the partitions of no events.
proof fn lemma_split_empty(events: Seq<Event>, k: usize, m: int)
    ensures
        split_total(events, k, m, 0) == 0,
        split_sizes(events, k, m, 0) == 0,
        split_len(events, k, m, 0) == 0,
    decreases m,
{
    if m > 0 {
        lemma_split_empty(events, k, m - 1);
    }
}

/// The partitions of a pool hold its events: their sums add up to the sums
/// of the pool.
proof fn lemma_split(events: Seq<Event>, k: usize, n: int)
    requires
        k > 0,
        0 <= n <= events.len(),
    ensures
        split_total(events, k, k as int, n) == pool_sum(events, n),
        split_sizes(events, k, k as int, n) == pool_size_sum(events, n),
        split_len(events, k, k as int, n) == n,
    decreases n,
{
    if n > 0 {
        lemma_split(events, k, n - 1);
        lemma_split_step(events, k, k as int, n);
    } else {
        lemma_split_empty(events, k, k as int);
    }
}

/// Sizes and numbers of events are not negative.
proof fn lemma_split_nonnegative(events: Seq<Event>, k: usize, m: int, n: int)
    ensures
        0 <= split_sizes(events, k, m, n),
        0 <= split_len(events, k, m, n),
    decreases m,
{
    if m > 0 {
        lemma_split_nonnegative(events, k, m - 1, n);
        let part = partition(events, k, m - 1, n);
        lemma_pool_sum_congruence(part, part, part.len() as int);
    }
}

/// The sums over the first `m` partitions grow with `m` where they count
/// sizes or events.
proof fn lemma_split_grows(events: Seq<Event>, k: usize, m: int, upto: int, n: int)
    requires
        0 <= m <= upto,
    ensures
        split_sizes(events, k, m, n) <= split_sizes(events, k, upto, n),
        split_len(events, k, m, n) <= split_len(events, k, upto, n),
    decreases upto,
{
    if upto > m {
        lemma_split_grows(events, k, m, upto - 1, n);
        let part = partition(events, k, upto - 1, n);
        lemma_pool_sum_congruence(part, part, part.len() as int);
    }
}

/// The sum of the central weights over the events of the first `m`
/// partitions after resampling, in units of the smallest positive number.
pub open spec fn parts_total(parts: Seq<ResampledPartition>, m: int) -> int
    decreases m,
{
    if m <= 0 {
        0
    } else {
        parts_total(parts, m - 1) + pool_sum(parts[m - 1].events@, parts[m - 1].events.len() as int)
    }
}

/// The pool of the first `m` partitions has the sum of their sums.
proof fn lemma_pool_of_total(parts: Seq<ResampledPartition>, m: int)
    requires
        0 <= m <= parts.len(),
    ensures
        pool_sum(pool_of(parts, m), pool_of(parts, m).len() as int) == parts_total(parts, m),
    decreases m,
{
    if m > 0 {
        lemma_pool_of_total(parts, m - 1);
        lemma_pool_sum_concat(pool_of(parts, m - 1), parts[m - 1].events@, parts[m - 1].events.len() as int);
    }
}

/// The pool of the first `m` partitions has as many events as the
/// partitions had before resampling, and each has a central weight.
proof fn lemma_pool_of_len<D: Distance>(resampler: Resampler<D>, events: Seq<Event>, parts: Seq<ResampledPartition>, m: int)
    requires
        parts.len() == resampler.settings().3,
        0 <= m <= parts.len(),
        forall|p: int| 0 <= p < parts.len() ==> resampler.partition_resampled(events, p, #[trigger] parts[p]),
    ensures
        pool_of(parts, m).len() == split_len(events, resampler.settings().3, m, events.len() as int),
        pool_wf(pool_of(parts, m)),
    decreases m,
{
    if m > 0 {
        lemma_pool_of_len(resampler, events, parts, m - 1);
        assert(resampler.partition_resampled(events, m - 1, parts[m - 1]));
        let shorter = pool_of(parts, m - 1);
        assert forall|i: int| 0 <= i < pool_of(parts, m).len() implies (#[trigger] pool_of(parts, m)[i]).wf() by {
            if i < shorter.len() {
                assert(shorter[i].wf());
            } else {
                assert(parts[m - 1].events@[i - shorter.len()].wf());
            }
        }
    }
}

/// The first `m` partitions keep the sum of their central weights up to
/// rounding.
proof fn lemma_parts_keep_the_total<D: Distance>(
    resampler: Resampler<D>,
    events: Seq<Event>,
    parts: Seq<ResampledPartition>,
    m: int,
)
    requires
        resampler.wf(),
        !resampler.averages_all_weights(),
        events.len() <= FRACTION_STEPS,
        parts.len() == resampler.settings().3,
        0 <= m <= parts.len(),
        forall|p: int|
            0 <= p < parts.len() ==> resampler.partition_resampled(events, p, #[trigger] parts[p]) && cells_are_finite(
                parts[p].cells@,
            ),
    ensures
        ROUNDING_STEPS * size_of(
            parts_total(parts, m) - split_total(events, resampler.settings().3, m, events.len() as int),
        ) <= 2 * events.len() * split_sizes(events, resampler.settings().3, m, events.len() as int) + split_len(
            events,
            resampler.settings().3,
            m,
            events.len() as int,
        ) * FRACTION_STEPS,
    decreases m,
{
    let k = resampler.settings().3;
    let n = events.len() as int;
    if m > 0 {
        lemma_parts_keep_the_total(resampler, events, parts, m - 1);
        let pool = partition(events, k, m - 1, n);
        let part = parts[m - 1];
        assert(resampler.partition_resampled(events, m - 1, part) && cells_are_finite(part.cells@));
        lemma_split(events, k, n);
        lemma_split_grows(events, k, m, k as int, n);
        lemma_split_nonnegative(events, k, m - 1, n);
        assert(pool.len() <= n);
        assert(pool_total_is_kept(pool, part.events@));
        assert(part.events.len() == pool.len());
        lemma_pool_sum_congruence(pool, pool, pool.len() as int);
        lemma_total_step(
            0,
            parts_total(parts, m - 1) - split_total(events, k, m - 1, n),
            parts_total(parts, m) - split_total(events, k, m, n),
            n,
            split_sizes(events, k, m - 1, n),
            split_len(events, k, m - 1, n),
            pool.len() as int,
            pool_size_sum(pool, pool.len() as int),
        );
    } else {
        assert(2 * n * 0 + 0 * FRACTION_STEPS == 0) by (nonlinear_arith);
    }
}

/// If each of the first `n` events is chosen, the sum over the chosen is the
/// sum over the pool.
proof fn lemma_all_chosen(events: Seq<Event>, chosen: Set<usize>, n: int)
    requires
        0 <= n <= usize::MAX,
        forall|x: usize| x < n ==> #[trigger] chosen.contains(x),
    ensures
        chosen_sum(events, chosen, n) == pool_sum(events, n),
    decreases n,
{
    if n > 0 {
        lemma_all_chosen(events, chosen, n - 1);
        assert(chosen.contains((n - 1) as usize));
    }
}

/// The sum over events that are taken from a pool at the positions `at` is
/// the sum over these positions.
proof fn lemma_sum_along(out: Seq<Event>, pool: Seq<Event>, at: Seq<usize>, n: int)
    requires
        0 <= n <= out.len(),
        n <= at.len(),
        forall|j: int| 0 <= j < n ==> (#[trigger] out[j]).central() == pool[at[j] as int].central(),
    ensures
        pool_sum(out, n) == exact_sum(pool, at, n),
    decreases n,
{
    if n > 0 {
        lemma_sum_along(out, pool, at, n - 1);
        assert(out[n - 1].central() == pool[at[n - 1] as int].central());
    }
}

/// A pool in another order has the same sum of central weights.
proof fn lemma_permuted_total(pool: Seq<Event>, out: Seq<Event>, order: Seq<int>)
    requires
        pool.len() <= usize::MAX,
        out.len() == pool.len(),
        is_permutation(order, pool.len() as int),
        forall|j: int| 0 <= j < out.len() ==> (#[trigger] out[j]).central() == pool[order[j]].central(),
    ensures
        pool_sum(out, out.len() as int) == pool_sum(pool, pool.len() as int),
{
    let n = pool.len() as int;
    let at = Seq::new(pool.len(), |j: int| order[j] as usize);
    assert(at.no_duplicates()) by {
        assert forall|i: int, j: int| 0 <= i < at.len() && 0 <= j < at.len() && i != j implies at[i] != at[j] by {
            assert(order[i] != order[j]);
        }
    }
    assert(at.take(n) == at);
    assert forall|j: int| 0 <= j < at.len() implies (#[trigger] at[j]) < pool.len() by {
        assert(0 <= order[j] < n);
    }
    lemma_members_are_chosen(pool, at, n);
    assert forall|x: usize| x < n implies #[trigger] at.to_set().contains(x) by {
        assert(order.contains(x as int));
        let j = choose|j: int| 0 <= j < order.len() && order[j] == x as int;
        assert(at[j] == x);
        assert(at.contains(x));
    }
    lemma_all_chosen(pool, at.to_set(), n);
    assert forall|j: int| 0 <= j < n implies (#[trigger] out[j]).central() == pool[at[j] as int].central() by {
        assert(out[j].central() == pool[order[j]].central());
    }
    lemma_sum_along(out, pool, at, n);
}

/// A run without unweighting keeps the sum of the central weights up to
/// rounding, however many partitions there are: the sum over the events that
/// come out differs from the sum over the events that went in by at most one
/// part in two to the power 52 of the sizes of the weights and half a unit,
/// for each event. This holds if only the central weight is averaged, and
/// unless a sum or a mean in a cell is infinite.
pub proof fn lemma_run_keeps_the_total<D: Distance>(
    resampler: Resampler<D>,
    min_wt: Real,
    events: Seq<Event>,
    parts: Seq<ResampledPartition>,
    out: Seq<Event>,
)
    requires
        resampler.wf(),
        !resampler.averages_all_weights(),
        events.len() <= FRACTION_STEPS,
        events.len() <= usize::MAX,
        parts.len() == resampler.settings().3,
        forall|p: int|
            0 <= p < parts.len() ==> resampler.partition_resampled(numbered(events), p, #[trigger] parts[p])
                && cells_are_finite(parts[p].cells@),
        min_wt.key() == 0,
        finished(min_wt, pool_of(parts, parts.len() as int), out),
    ensures
        out.len() == events.len(),
        pool_total_is_kept(events, out),
{
    let k = resampler.settings().3;
    let n = events.len() as int;
    let numbered = numbered(events);
    let pool = pool_of(parts, k as int);
    lemma_parts_keep_the_total(resampler, numbered, parts, k as int);
    lemma_split(numbered, k, n);
    lemma_pool_of_total(parts, k as int);
    assert forall|i: int| 0 <= i < n implies (#[trigger] numbered[i]).central() == events[i].central() by {}
    lemma_pool_sum_congruence(numbered, events, n);
    lemma_pool_of_len(resampler, numbered, parts, k as int);
    assert(pool.len() == n);
    let (unweighted, order) = choose|unweighted: Seq<Event>, order: Seq<int>| #[trigger]
        selects(min_wt, pool, out, unweighted, order);
    assert(is_permutation(order, n));
    assert forall|j: int| 0 <= j < out.len() implies (#[trigger] out[j]).central() == pool[order[j]].central() by {
        let i = order[j];
        assert(out[j] == unweighted[i]);
        assert(unweights(min_wt, pool[i], unweighted[i]));
        assert(pool[i].wf());
    }
    lemma_permuted_total(pool, out, order);
}

/// Two runs without unweighting that differ in the number of partitions only
/// give the same sum of central weights up to rounding: each has the sum of
/// the events that went in, see [`lemma_run_keeps_the_total`].
pub proof fn lemma_partitions_keep_the_total<D: Distance>(
    one: Resampler<D>,
    other: Resampler<D>,
    min_wt: Real,
    events: Seq<Event>,
    parts_one: Seq<ResampledPartition>,
    out_one: Seq<Event>,
    parts_other: Seq<ResampledPartition>,
    out_other: Seq<Event>,
)
    requires
        one.wf(),
        other.wf(),
        !one.averages_all_weights(),
        !other.averages_all_weights(),
        events.len() <= FRACTION_STEPS,
        events.len() <= usize::MAX,
        parts_one.len() == one.settings().3,
        parts_other.len() == other.settings().3,
        forall|p: int|
            0 <= p < parts_one.len() ==> one.partition_resampled(numbered(events), p, #[trigger] parts_one[p])
                && cells_are_finite(parts_one[p].cells@),
        forall|p: int|
            0 <= p < parts_other.len() ==> other.partition_resampled(numbered(events), p, #[trigger] parts_other[p])
                && cells_are_finite(parts_other[p].cells@),
        min_wt.key() == 0,
        finished(min_wt, pool_of(parts_one, parts_one.len() as int), out_one),
        finished(min_wt, pool_of(parts_other, parts_other.len() as int), out_other),
    ensures
        out_one.len() == events.len(),
        out_other.len() == events.len(),
        pool_total_is_kept(events, out_one),
        pool_total_is_kept(events, out_other),
        ROUNDING_STEPS * size_of(pool_sum(out_one, events.len() as int) - pool_sum(out_other, events.len() as int)) <= 2
            * (2 * events.len() * pool_size_sum(events, events.len() as int) + events.len() * FRACTION_STEPS),
{
    lemma_run_keeps_the_total(one, min_wt, events, parts_one, out_one);
    lemma_run_keeps_the_total(other, min_wt, events, parts_other, out_other);
    let n = events.len() as int;
    let r = ROUNDING_STEPS as int;
    let a = pool_sum(out_one, n) - pool_sum(events, n);
    let b = pool_sum(out_other, n) - pool_sum(events, n);
    assert(r * size_of(a - b) <= r * size_of(a) + r * size_of(b)) by (nonlinear_arith)
        requires
            size_of(a - b) <= size_of(a) + size_of(b),
            r > 0,
    ;
}

/// One of the events has the id `id`.
pub open spec fn has_id(events: Seq<Event>, id: int) -> bool {
    exists|j: int| 0 <= j < events.len() && (#[trigger] events[j]).id == id
}

/// The ids of the events that leave the pipeline are ids of events that
/// entered it, and no id leaves it twice. If unweighting is switched off,
/// every id that entered the pipeline leaves it.
pub proof fn lemma_ids_are_kept<D: Distance>(
    resampler: Resampler<D>,
    min_wt: Real,
    events: Seq<Event>,
    parts: Seq<ResampledPartition>,
    out: Seq<Event>,
)
    requires
        resampler.wf(),
        events.len() <= usize::MAX,
        parts.len() == resampler.settings().3,
        forall|p: int| 0 <= p < parts.len() ==> resampler.partition_resampled(numbered(events), p, #[trigger] parts[p]),
        finished(min_wt, pool_of(parts, parts.len() as int), out),
    ensures
        forall|j: int| 0 <= j < out.len() ==> (#[trigger] out[j]).id < events.len(),
        forall|a: int, b: int| 0 <= a < b < out.len() ==> (#[trigger] out[a]).id != (#[trigger] out[b]).id,
        min_wt.key() == 0 ==> forall|i: int| 0 <= i < events.len() ==> #[trigger] has_id(out, i),
{
    let k = resampler.settings().3;
    let n = events.len() as int;
    let e = numbered(events);
    let pool = pool_of(parts, k as int);
    let (unweighted, order) = choose|unweighted: Seq<Event>, order: Seq<int>| #[trigger]
        selects(min_wt, pool, out, unweighted, order);
    // the id of each event of the pool
    assert forall|x: int| 0 <= x < pool.len() implies (#[trigger] pool[x]).id < n && pool[x].id % k == locate(
        parts,
        k as int,
        x,
    ).0 by {
        lemma_locate(parts, k as int, x);
        let (p, j) = locate(parts, k as int, x);
        assert(resampler.partition_resampled(e, p, parts[p]));
        lemma_partition_ids(e, k, p, n);
        assert(parts[p].events@[j].id == partition(e, k, p, n)[j].id);
    }
    assert forall|x: int, y: int| 0 <= x < pool.len() && 0 <= y < pool.len() && x != y implies (#[trigger] pool[x]).id
        != (#[trigger] pool[y]).id by {
        lemma_locate(parts, k as int, x);
        lemma_locate(parts, k as int, y);
        let (p, j) = locate(parts, k as int, x);
        let (q, i) = locate(parts, k as int, y);
        if pool[x].id == pool[y].id {
            assert(p == q);
            assert(resampler.partition_resampled(e, p, parts[p]));
            lemma_partition_ids(e, k, p, n);
            assert(parts[p].events@[j].id == partition(e, k, p, n)[j].id);
            assert(parts[p].events@[i].id == partition(e, k, p, n)[i].id);
            if j < i {
                assert(partition(e, k, p, n)[j].id < partition(e, k, p, n)[i].id);
            }
            if i < j {
                assert(partition(e, k, p, n)[i].id < partition(e, k, p, n)[j].id);
            }
            lemma_locate_injective(parts, k as int, x, y);
        }
    }
    assert forall|j: int| 0 <= j < out.len() implies (#[trigger] out[j]).id < events.len() by {
        assert(out[j] == unweighted[order[j]]);
        assert(unweights(min_wt, pool[order[j]], unweighted[order[j]]));
    }
    assert forall|a: int, b: int| 0 <= a < b < out.len() implies (#[trigger] out[a]).id != (#[trigger] out[b]).id by {
        assert(out[a] == unweighted[order[a]]);
        assert(out[b] == unweighted[order[b]]);
        assert(unweights(min_wt, pool[order[a]], unweighted[order[a]]));
        assert(unweights(min_wt, pool[order[b]], unweighted[order[b]]));
        assert(order[a] != order[b]);
    }
    if min_wt.key() == 0 {
        assert forall|i: int| 0 <= i < events.len() implies #[trigger] has_id(out, i) by {
            let p = (e[i].id % k) as int;
            lemma_partition_covers(e, k, n, i);
            let part = partition(e, k, p, n);
            let j = choose|j: int| 0 <= j < part.len() && #[trigger] part[j] == e[i];
            assert(resampler.partition_resampled(e, p, parts[p]));
            assert(parts[p].events@[j].id == part[j].id);
            let x = lemma_located(parts, k as int, p, j);
            assert(order.contains(x));
            let y = choose|y: int| 0 <= y < order.len() && order[y] == x;
            assert(out[y] == unweighted[order[y]]);
            assert(unweights(min_wt, pool[x], unweighted[x]));
            assert(out[y].id == i);
        }
    }
}

/// The events of the partition have a central weight, and the members of its
/// cells are events of the partition.
pub open spec fn members_in_range(part: ResampledPartition) -> bool {
    &&& pool_wf(part.events@)
    &&& forall|c: int, j: int|
        0 <= c < part.cells.len() && 0 <= j < part.cells[c].members().len() ==> (#[trigger] part.cells[c].members()[j])
            < part.events.len()
}

proof fn lemma_pool_of_wf(parts: Seq<ResampledPartition>, k: int)
    requires
        0 <= k <= parts.len(),
        forall|p: int| 0 <= p < parts.len() ==> members_in_range(#[trigger] parts[p]),
    ensures
        pool_wf(pool_of(parts, k)),
    decreases k,
{
    if k > 0 {
        lemma_pool_of_wf(parts, k - 1);
        let shorter = pool_of(parts, k - 1);
        assert forall|i: int| 0 <= i < pool_of(parts, k).len() implies (#[trigger] pool_of(parts, k)[i]).wf() by {
            if i < shorter.len() {
                assert(shorter[i].wf());
            } else {
                assert(parts[k - 1].events@[i - shorter.len()].wf());
            }
        }
    }
}

impl<R, C, W, D: Distance> Cres<R, C, Resampler<D>, Unweighter, W> {
    /// The resampler.
    pub closed spec fn resampler(&self) -> Resampler<D> {
        self.resampler
    }

    /// The unweighter.
    pub closed spec fn unweighter(&self) -> Unweighter {
        self.unweighter
    }

    /// The resampler, for resampling by hand.
    pub fn resampler_ref(&self) -> (r: &Resampler<D>)
        ensures
            *r == self.resampler(),
    {
        &self.resampler
    }

    /// The partitions `parts` are the result of resampling the pool `events`,
    /// after each event was given its position as id.
    pub open spec fn resampled_from(&self, events: Seq<Event>, parts: Seq<ResampledPartition>) -> bool {
        &&& parts.len() == self.resampler().settings().3
        &&& forall|p: int|
            0 <= p < parts.len() ==> self.resampler().partition_resampled(numbered(events), p, #[trigger] parts[p])
    }

    /// Give the events their ids and resample them.
    ///
    /// An event that comes with an id other than zero is an error.
    pub fn resample<N: NeighbourSearch>(&self, events: Vec<Event>) -> (r: Result<
        Vec<ResampledPartition>,
        CresError<(), (), (), (), (), ()>,
    >)
        requires
            self.resampler().wf(),
            self.resampler().accepts(events@),
        ensures
            match r {
                Ok(parts) => first_nonzero_id(events@, events.len() as int).is_none() && self.resampled_from(
                    events@,
                    parts@,
                ),
                Err(CresError::IdErr(id)) => first_nonzero_id(events@, events.len() as int) matches Some(i) && id
                    == events[i].id,
                Err(_) => false,
            },
    {
        let mut events = events;
        let ghost before = events@;
        match assign_ids(&mut events) {
            Err(id) => Err(CresError::IdErr(id)),
            Ok(()) => {
                proof {
                    assert forall|i: int| 0 <= i < events.len() implies (#[trigger] events[i]).finite()
                        && self.resampler().settings().0.accepts(events[i].outgoing@) by {
                        assert(before[i].finite());
                        assert(self.resampler().settings().0.accepts(before[i].outgoing@));
                    }
                    assert(events@ =~= numbered(before));
                }
                let parts = self.resampler.resample::<N>(events);
                Ok(parts)
            },
        }
    }

    /// Unweight the resampled events and sort what is left of them.
    ///
    /// The events of all partitions are joined into one pool and unweighted.
    /// Unless the smallest absolute weight is zero, events with a weight of
    /// zero are removed. The result is sorted by central weight, then by id.
    /// A record of the cells is returned beside it.
    pub fn finish(&mut self, parts: Vec<ResampledPartition>) -> (r: (Vec<Event>, CellCollector))
        requires
            old(self).unweighter().wf(),
            forall|p: int| 0 <= p < parts.len() ==> members_in_range(#[trigger] parts[p]),
        ensures
            final(self).resampler() == old(self).resampler(),
            final(self).unweighter().wf(),
            final(self).unweighter().min_wt() == old(self).unweighter().min_wt(),
            finished(old(self).unweighter().min_wt(), pool_of(parts@, parts.len() as int), r.0@),
            r.1.summaries() == all_summaries(parts@, parts.len() as int),
    {
        let ghost min_wt = self.unweighter.min_wt();
        let ghost pool0 = pool_of(parts@, parts.len() as int);
        proof {
            lemma_pool_of_wf(parts@, parts.len() as int);
        }
        let mut cells = CellCollector::new();
        let mut p: usize = 0;
        while p < parts.len()
            invariant
                p <= parts.len(),
                forall|q: int| 0 <= q < parts.len() ==> members_in_range(#[trigger] parts[q]),
                cells.summaries() == all_summaries(parts@, p as int),
            decreases parts.len() - p,
        {
            assert(members_in_range(parts[p as int]));
            cells.collect_partition(&parts[p]);
            p += 1;
        }
        let mut pool = into_pool(parts);
        self.unweighter.unweight(&mut pool);
        let ghost unweighted = pool@;
        let keep_all = self.unweighter.disabled();
        let kept = if keep_all {
            pool
        } else {
            drop_zero_weights(pool)
        };
        let ghost kept_seq = kept@;
        let out = sort_events(kept);
        proof {
            let sorted_order = choose|order: Seq<int>|
                is_permutation(order, kept_seq.len() as int) && forall|j: int|
                    0 <= j < out.len() ==> #[trigger] out[j] == kept_seq[order[j]];
            if keep_all {
                assert(forall|j: int| 0 <= j < out.len() ==> #[trigger] out[j] == unweighted[sorted_order[j]]);
                assert(selects(min_wt, pool0, out@, unweighted, sorted_order));
                lemma_finished(min_wt, pool0, out@, unweighted, sorted_order);
            } else {
                let n = unweighted.len() as int;
                let nz = nonzero_positions(unweighted, n);
                lemma_nonzero_positions(unweighted, n);
                let order = Seq::new(out.len() as nat, |j: int| nz[sorted_order[j]]);
                assert forall|a: int, b: int| 0 <= a < order.len() && 0 <= b < order.len() && a != b implies order[a]
                    != order[b] by {
                    let x = sorted_order[a];
                    let y = sorted_order[b];
                    assert(x != y);
                    if x < y {
                        assert(nz[x] < nz[y]);
                    } else {
                        assert(nz[y] < nz[x]);
                    }
                }
                assert forall|i: int| 0 <= i < n && (#[trigger] unweighted[i]).central().key() != 0 implies order.contains(
                    i,
                ) by {
                    assert(nz.contains(i));
                    let x = choose|x: int| 0 <= x < nz.len() && nz[x] == i;
                    assert(sorted_order.contains(x));
                    let j = choose|j: int| 0 <= j < sorted_order.len() && sorted_order[j] == x;
                    assert(order[j] == i);
                }
                assert forall|j: int| 0 <= j < order.len() implies 0 <= #[trigger] order[j] < n && unweighted[order[j]].central().key()
                    != 0 by {
                    let x = sorted_order[j];
                    assert(0 <= nz[x] < n);
                }
                assert(lists_nonzero(order, unweighted));
                assert forall|j: int| 0 <= j < out.len() implies #[trigger] out[j] == unweighted[order[j]] by {
                    assert(out[j] == kept_seq[sorted_order[j]]);
                }
                assert(selects(min_wt, pool0, out@, unweighted, order));
                lemma_finished(min_wt, pool0, out@, unweighted, order);
            }
        }
        (out, cells)
    }

    /// Run the cell resampler on the events that were read.
    ///
    /// This goes through the following steps
    ///
    /// 1. Give each event its position as id
    /// 2. Apply cell resampling
    /// 3. Unweight
    /// 4. Sort the events that are left
    pub fn run<N: NeighbourSearch>(&mut self, events: Vec<Event>) -> (r: Result<
        (Vec<Event>, CellCollector),
        CresError<(), (), (), (), (), ()>,
    >)
        requires
            old(self).resampler().wf(),
            old(self).unweighter().wf(),
            old(self).resampler().accepts(events@),
        ensures
            final(self).resampler() == old(self).resampler(),
            final(self).unweighter().wf(),
            final(self).unweighter().min_wt() == old(self).unweighter().min_wt(),
            match r {
                Ok((out, cells)) => {
                    &&& first_nonzero_id(events@, events.len() as int).is_none()
                    &&& exists|parts: Seq<ResampledPartition>|
                        {
                            &&& #[trigger] old(self).resampled_from(events@, parts)
                            &&& finished(old(self).unweighter().min_wt(), pool_of(parts, parts.len() as int), out@)
                            &&& cells.summaries() == all_summaries(parts, parts.len() as int)
                        }
                },
                Err(CresError::IdErr(id)) => first_nonzero_id(events@, events.len() as int) matches Some(i) && id
                    == events[i].id,
                Err(_) => false,
            },
    {
        match self.resample::<N>(events) {
            Err(e) => Err(e),
            Ok(parts) => {
                let ghost witness = parts@;
                proof {
                    assert forall|p: int| 0 <= p < parts.len() implies members_in_range(#[trigger] parts[p]) by {
                        let part = parts[p];
                        assert(self.resampler().partition_resampled(numbered(events@), p, part));
                        assert forall|c: int, j: int|
                            0 <= c < part.cells.len() && 0 <= j < part.cells[c].members().len() implies (#[trigger] part.cells[c].members()[j])
                            < part.events.len() by {
                            assert(part.cells[c].members().contains(part.cells[c].members()[j]));
                        }
                    }
                }
                let r = self.finish(parts);
                assert(old(self).resampled_from(events@, witness));
                Ok(r)
            },
        }
    }
}

} // verus!
