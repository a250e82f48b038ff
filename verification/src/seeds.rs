//! Selection of cell seeds.
use vstd::prelude::*;
use crate::event::{pool_wf, Event};

verus! {

/// Strategy for choosing the next cell seed among the events with negative
/// central weight.
#[derive(Clone, Copy, Debug, PartialEq, Eq, Structural)]
pub enum Strategy {
    /// Take the first event with negative weight.
    Next,
    /// Take the event with the lowest weight.
    MostNegative,
    /// Take the event with the negative weight closest to zero.
    LeastNegative,
}

impl Default for Strategy {
    fn default() -> (r: Self)
        ensures
            r == Strategy::MostNegative,
    {
        Strategy::MostNegative
    }
}

/// The event at index `i` can seed a cell: it is not in a cell yet and its
/// central weight is negative.
pub open spec fn eligible(events: Seq<Event>, used: Seq<bool>, i: int) -> bool {
    0 <= i < events.len() && !used[i] && events[i].central().key() < 0
}

/// Under `strategy` the event at index `a` is chosen no later than the event
/// at index `b`. Between events of equal weight the one with the lower id
/// comes first, and between those the one with the lower index.
pub open spec fn precedes(strategy: Strategy, events: Seq<Event>, a: int, b: int) -> bool {
    let wa = events[a].central().key();
    let wb = events[b].central().key();
    let tie = events[a].id < events[b].id || (events[a].id == events[b].id && a <= b);
    match strategy {
        Strategy::Next => a <= b,
        Strategy::MostNegative => wa < wb || (wa == wb && tie),
        Strategy::LeastNegative => wa > wb || (wa == wb && tie),
    }
}

/// The event at index `s` is the seed that `strategy` chooses.
pub open spec fn is_seed(strategy: Strategy, events: Seq<Event>, used: Seq<bool>, s: int) -> bool {
    &&& eligible(events, used, s)
    &&& forall|j: int| eligible(events, used, j) ==> precedes(strategy, events, s, j)
}

/// The index of the next seed, or `None` if no event that is not in a cell
/// has negative central weight.
pub fn select_seed(strategy: Strategy, events: &[Event], used: &[bool]) -> (r: Option<usize>)
    requires
        pool_wf(events@),
        used.len() == events.len(),
    ensures
        match r {
            Some(s) => is_seed(strategy, events@, used@, s as int),
            None => forall|j: int| !eligible(events@, used@, j),
        },
{
    let n = events.len();
    let mut best: Option<usize> = None;
    let mut i: usize = 0;
    while i < n
        invariant
            i <= n,
            n == events.len(),
            used.len() == n,
            pool_wf(events@),
            match best {
                Some(s) => {
                    &&& s < i
                    &&& eligible(events@, used@, s as int)
                    &&& forall|j: int| j < i && eligible(events@, used@, j) ==> precedes(strategy, events@, s as int, j)
                },
                None => forall|j: int| j < i ==> !eligible(events@, used@, j),
            },
        decreases n - i,
    {
        assert(events[i as int].wf());
        if !used[i] && events[i].weight().is_negative() {
            match best {
                None => {
                    best = Some(i);
                },
                Some(s) => {
                    assert(events[s as int].wf());
                    let w = events[i].weight();
                    let ws = events[s].weight();
                    let better = match strategy {
                        Strategy::Next => false,
                        Strategy::MostNegative => w.lt(ws) || (w.same(ws) && events[i].id < events[s].id),
                        Strategy::LeastNegative => ws.lt(w) || (w.same(ws) && events[i].id < events[s].id),
                    };
                    if better {
                        assert forall|j: int| j < i + 1 && eligible(events@, used@, j) implies precedes(
                            strategy,
                            events@,
                            i as int,
                            j,
                        ) by {
                            if j < i {
                                assert(precedes(strategy, events@, s as int, j));
                            }
                        }
                        best = Some(i);
                    }
                },
            }
        }
        i += 1;
    }
    best
}

} // verus!
