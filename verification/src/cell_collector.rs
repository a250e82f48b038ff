//! A record of the cells that were made.
use vstd::prelude::*;
use crate::cell::Cell;
use crate::sorting::{is_permutation, key_le, lemma_sorted_keys, sort_keys};
use crate::event::Event;
use crate::number::Real;
use crate::resampler::ResampledPartition;

verus! {

/// What is recorded of a cell.
#[derive(Debug)]
pub struct CellStatistics {
    /// The ids of the events in the cell, the seed first.
    pub member_ids: Vec<usize>,
    /// The distance from the seed to the farthest event of the cell.
    pub radius: Real,
    /// The sum of central weights when the cell was made.
    pub weight_sum: Real,
    /// The number of events with negative central weight when the cell was
    /// made.
    pub nneg: usize,
}

/// What is recorded of a cell, with the ids as a sequence.
pub struct CellSummary {
    pub member_ids: Seq<usize>,
    pub radius: Real,
    pub weight_sum: Real,
    pub nneg: usize,
}

impl View for CellStatistics {
    type V = CellSummary;

    open spec fn view(&self) -> CellSummary {
        CellSummary {
            member_ids: self.member_ids@,
            radius: self.radius,
            weight_sum: self.weight_sum,
            nneg: self.nneg,
        }
    }
}

/// What is recorded of the cell `cell`, whose members are events of the pool
/// `events`.
pub open spec fn summary_of(cell: Cell, events: Seq<Event>) -> CellSummary {
    CellSummary {
        member_ids: Seq::new(cell.members().len(), |j: int| events[cell.members()[j] as int].id),
        radius: cell.spec_radius(),
        weight_sum: cell.spec_weight_sum(),
        nneg: cell.spec_nneg(),
    }
}

/// What is recorded of the first `n` cells of a partition.
pub open spec fn partition_summaries(part: ResampledPartition, n: int) -> Seq<CellSummary>
    decreases n,
{
    if n <= 0 {
        Seq::empty()
    } else {
        partition_summaries(part, n - 1).push(summary_of(part.cells[n - 1], part.events@))
    }
}

/// What is recorded of the cells of the first `k` partitions, one partition
/// after the other.
pub open spec fn all_summaries(parts: Seq<ResampledPartition>, k: int) -> Seq<CellSummary>
    decreases k,
{
    if k <= 0 {
        Seq::empty()
    } else {
        all_summaries(parts, k - 1) + partition_summaries(parts[k - 1], parts[k - 1].cells.len() as int)
    }
}

/// A record of the cells that were made. The cells are numbered in the order
/// in which they were recorded.
#[derive(Debug)]
pub struct CellCollector {
    cells: Vec<CellStatistics>,
}

impl CellCollector {
    /// What was recorded of each cell.
    pub closed spec fn summaries(&self) -> Seq<CellSummary> {
        Seq::new(self.cells.len() as nat, |c: int| self.cells[c]@)
    }

    /// A record without cells.
    pub fn new() -> (r: Self)
        ensures
            r.summaries() == Seq::<CellSummary>::empty(),
    {
        let r = CellCollector { cells: Vec::new() };
        assert(r.summaries() =~= Seq::<CellSummary>::empty());
        r
    }

    /// Record the cell `cell`, whose members are events of the pool `events`.
    pub fn collect(&mut self, cell: &Cell, events: &[Event])
        requires
            forall|j: int| 0 <= j < cell.members().len() ==> (#[trigger] cell.members()[j]) < events.len(),
        ensures
            final(self).summaries() == old(self).summaries().push(summary_of(*cell, events@)),
    {
        let members = cell.member_indices();
        let mut member_ids: Vec<usize> = Vec::new();
        let mut j: usize = 0;
        while j < members.len()
            invariant
                j <= members.len(),
                members@ == cell.members(),
                member_ids.len() == j,
                forall|k: int| 0 <= k < cell.members().len() ==> (#[trigger] cell.members()[k]) < events.len(),
                forall|k: int| 0 <= k < j ==> member_ids[k] == events[cell.members()[k] as int].id,
            decreases members.len() - j,
        {
            assert(cell.members()[j as int] < events.len());
            member_ids.push(events[members[j]].id);
            j += 1;
        }
        let statistics = CellStatistics {
            member_ids,
            radius: cell.radius(),
            weight_sum: cell.weight_sum(),
            nneg: cell.nneg(),
        };
        assert(statistics@.member_ids =~= summary_of(*cell, events@).member_ids);
        self.cells.push(statistics);
        assert(self.summaries() =~= old(self).summaries().push(summary_of(*cell, events@)));
    }

    /// Record the cells of a partition, in their order.
    pub fn collect_partition(&mut self, part: &ResampledPartition)
        requires
            forall|c: int, j: int|
                0 <= c < part.cells.len() && 0 <= j < part.cells[c].members().len() ==> (#[trigger] part.cells[c].members()[j])
                    < part.events.len(),
        ensures
            final(self).summaries() == old(self).summaries() + partition_summaries(*part, part.cells.len() as int),
    {
        let mut c: usize = 0;
        assert(self.summaries() =~= old(self).summaries() + partition_summaries(*part, 0));
        while c < part.cells.len()
            invariant
                c <= part.cells.len(),
                forall|d: int, j: int|
                    0 <= d < part.cells.len() && 0 <= j < part.cells[d].members().len() ==> (#[trigger] part.cells[d].members()[j])
                        < part.events.len(),
                self.summaries() == old(self).summaries() + partition_summaries(*part, c as int),
            decreases part.cells.len() - c,
        {
            let ghost before = self.summaries();
            assert forall|j: int| 0 <= j < part.cells[c as int].members().len() implies (#[trigger] part.cells[c as int].members()[j])
                < part.events.len() by {}
            self.collect(&part.cells[c], part.events.as_slice());
            assert(self.summaries() =~= old(self).summaries() + partition_summaries(*part, c + 1));
            c += 1;
        }
    }

    /// The number of cells that were recorded.
    pub fn ncells(&self) -> (n: usize)
        ensures
            n == self.summaries().len(),
    {
        self.cells.len()
    }

    /// What was recorded of the cell number `c`.
    pub fn cell(&self, c: usize) -> (r: &CellStatistics)
        requires
            c < self.summaries().len(),
        ensures
            r@ == self.summaries()[c as int],
    {
        &self.cells[c]
    }

    /// The median of the radii of the cells, if there is a cell: the radius in
    /// the middle when the cells are put in the order of their radii. With an
    /// even number of cells it is the upper one of the two in the middle.
    pub fn median_radius(&self) -> (r: Option<Real>)
        ensures
            r.is_some() == (self.summaries().len() > 0),
            r matches Some(median) ==> exists|order: Seq<int>|
                {
                    &&& #[trigger] is_permutation(order, self.summaries().len() as int)
                    &&& forall|a: int, b: int|
                        0 <= a < b < order.len() ==> self.summaries()[order[a]].radius.key() <= self.summaries()[order[b]].radius.key()
                    &&& median == self.summaries()[order[self.summaries().len() as int / 2]].radius
                },
    {
        let n = self.cells.len();
        if n == 0 {
            return None;
        }
        let mut keys: Vec<(i64, usize, usize)> = Vec::new();
        let mut c: usize = 0;
        while c < n
            invariant
                c <= n,
                n == self.cells.len(),
                keys.len() == c,
                forall|k: int|
                    0 <= k < c ==> (#[trigger] keys[k]).2 == k && keys[k].0 == self.cells[k].radius.key(),
            decreases n - c,
        {
            keys.push((self.cells[c].radius.sort_key(), 0, c));
            c += 1;
        }
        let ghost keys0 = keys@;
        sort_keys(&mut keys);
        proof {
            lemma_sorted_keys(keys0, keys@);
        }
        let middle = keys[n / 2].2;
        let median = self.cells[middle].radius;
        proof {
            let order = Seq::new(n as nat, |j: int| keys[j].2 as int);
            assert(is_permutation(order, n as int));
            assert forall|a: int, b: int| 0 <= a < b < order.len() implies self.summaries()[order[a]].radius.key()
                <= self.summaries()[order[b]].radius.key() by {
                assert(key_le(keys[a], keys[b]));
                assert(keys[a] == keys0[keys[a].2 as int]);
                assert(keys[b] == keys0[keys[b].2 as int]);
            }
            assert(median == self.summaries()[order[n as int / 2]].radius);
        }
        Some(median)
    }

    /// The numbers of the cells that hold the event with the id `id`, in
    /// ascending order.
    pub fn event_cells(&self, id: usize) -> (r: Vec<usize>)
        ensures
            forall|k: int| 0 <= k < r.len() ==> (#[trigger] r[k]) < self.summaries().len() && self.summaries()[r[k] as int].member_ids.contains(id),
            forall|a: int, b: int| 0 <= a < b < r.len() ==> r[a] < r[b],
            forall|c: int|
                0 <= c < self.summaries().len() && (#[trigger] self.summaries()[c]).member_ids.contains(id) ==> r@.contains(
                    c as usize,
                ),
    {
        let mut r: Vec<usize> = Vec::new();
        let mut c: usize = 0;
        while c < self.cells.len()
            invariant
                c <= self.cells.len(),
                forall|k: int| 0 <= k < r.len() ==> (#[trigger] r[k]) < c && self.summaries()[r[k] as int].member_ids.contains(id),
                forall|a: int, b: int| 0 <= a < b < r.len() ==> r[a] < r[b],
                forall|d: int|
                    0 <= d < c && (#[trigger] self.summaries()[d]).member_ids.contains(id) ==> r@.contains(d as usize),
            decreases self.cells.len() - c,
        {
            let ids = &self.cells[c].member_ids;
            let mut found = false;
            let mut j: usize = 0;
            while j < ids.len() && !found
                invariant
                    j <= ids.len(),
                    found ==> ids@.contains(id),
                    !found ==> forall|k: int| 0 <= k < j ==> ids[k] != id,
                decreases ids.len() - j, !found as int,
            {
                if ids[j] == id {
                    found = true;
                } else {
                    j += 1;
                }
            }
            let ghost before = r@;
            assert(self.summaries()[c as int].member_ids == ids@);
            if found {
                r.push(c);
                assert(r@[r.len() - 1] == c);
            }
            proof {
                assert forall|d: int|
                    0 <= d < c + 1 && (#[trigger] self.summaries()[d]).member_ids.contains(id) implies r@.contains(
                    d as usize,
                ) by {
                    if d < c {
                        assert(before.contains(d as usize));
                        let k = choose|k: int| 0 <= k < before.len() && before[k] == d as usize;
                        assert(r@[k] == d as usize);
                    }
                }
            }
            c += 1;
        }
        r
    }
}

} // verus!
