//! Unweighting of events with small weights.
use vstd::prelude::*;
use crate::event::{pool_wf, Event};
use crate::number::{Real, ONE_BITS};

verus! {

/// The random number generator `Xoshiro256Plus` of `rand_xoshiro`, of whose
/// state nothing is known here.
#[verifier::external_type_specification]
#[verifier::external_body]
pub struct ExXoshiro256Plus(rand_xoshiro::Xoshiro256Plus);

/// Calls `rand_xoshiro`'s `Xoshiro256Plus::seed_from_u64`, which makes a
/// generator from a seed.
#[verifier::external_body]
fn seeded_generator(seed: u64) -> rand_xoshiro::Xoshiro256Plus {
    rand::SeedableRng::seed_from_u64(seed)
}

/// Calls `rand`'s `Rng::gen` for a binary64 number, which draws a number that
/// is at least zero and less than one.
#[verifier::external_body]
fn draw_unit(rng: &mut rand_xoshiro::Xoshiro256Plus) -> (bits: u64)
    ensures
        bits < ONE_BITS,
{
    let x = noisy_float::types::n64(rand::Rng::gen(rng));
    u64::from_be_bytes(num_traits::ToBytes::to_be_bytes(&x.raw()))
}

/// The weight of an event after unweighting, where `w` is its weight before,
/// `min_wt` the smallest absolute weight to keep, and `u` a number drawn
/// between zero and one.
///
/// A weight of at least `min_wt` in absolute value stays. A smaller one
/// becomes `min_wt` with the sign of `w` if `u` is less than `|w| / min_wt`,
/// and zero otherwise.
pub open spec fn unweighted(w: Real, min_wt: Real, u: Real) -> Real {
    if w.spec_abs().key() >= min_wt.key() {
        w
    } else if u.key() < w.spec_abs().spec_div(min_wt).key() {
        if w.key() < 0 {
            min_wt.spec_neg()
        } else {
            min_wt
        }
    } else {
        Real::spec_zero()
    }
}

/// Unweighting gives no negative weight to an event whose weight is not
/// negative.
pub proof fn lemma_unweighted_is_not_negative(w: Real, min_wt: Real, u: Real)
    requires
        min_wt.key() >= 0,
        w.key() >= 0,
    ensures
        unweighted(w, min_wt, u).key() >= 0,
{
}

/// The event `after` is the event `before` after unweighting with the smallest
/// absolute weight `min_wt`: some number that is at least zero and less than
/// one was drawn for it.
pub open spec fn unweights(min_wt: Real, before: Event, after: Event) -> bool {
    &&& after.id == before.id
    &&& after.outgoing == before.outgoing
    &&& exists|u: Real|
        0 <= u.key() < ONE_BITS && after.weights@ == before.weights@.update(
            0,
            #[trigger] unweighted(before.central(), min_wt, u),
        )
}

/// The weight of an event after unweighting, see [`unweighted`].
pub fn unweight_weight(w: Real, min_wt: Real, u: Real) -> (r: Real)
    requires
        w.wf(),
        min_wt.wf(),
        min_wt.key() >= 0,
    ensures
        r == unweighted(w, min_wt, u),
        r.wf(),
{
    let awt = w.abs();
    if !awt.lt(min_wt) {
        w
    } else if u.lt(awt.div(min_wt)) {
        if w.is_negative() {
            min_wt.neg()
        } else {
            min_wt
        }
    } else {
        Real::zero()
    }
}

/// Raises small weights to a smallest absolute weight, or sets them to zero,
/// at random.
pub struct Unweighter {
    min_wt: Real,
    rng: rand_xoshiro::Xoshiro256Plus,
}

impl Unweighter {
    /// The smallest absolute weight that is kept.
    pub closed spec fn min_wt(&self) -> Real {
        self.min_wt
    }

    /// The smallest absolute weight is a number that is not negative.
    pub open spec fn wf(&self) -> bool {
        self.min_wt().wf() && self.min_wt().key() >= 0
    }

    /// An unweighter for the smallest absolute weight `min_wt`, which draws
    /// random numbers from a generator with the given seed. Returns `None` if
    /// `min_wt` is negative.
    pub fn new(min_wt: Real, seed: u64) -> (r: Option<Self>)
        requires
            min_wt.wf(),
        ensures
            r.is_some() == (min_wt.key() >= 0),
            r matches Some(u) ==> u.wf() && u.min_wt() == min_wt,
    {
        if min_wt.is_negative() {
            None
        } else {
            Some(Unweighter { min_wt, rng: seeded_generator(seed) })
        }
    }

    /// Whether unweighting is switched off: the smallest absolute weight is
    /// zero.
    pub fn disabled(&self) -> (r: bool)
        ensures
            r == (self.min_wt().key() == 0),
    {
        self.min_wt.is_zero()
    }

    /// Unweight the events.
    ///
    /// With a smallest absolute weight of zero nothing changes. Else the
    /// central weight of each event is replaced as [`unweighted`] says. A
    /// random number is drawn for each event with a smaller absolute weight.
    pub fn unweight(&mut self, events: &mut Vec<Event>)
        requires
            old(self).wf(),
            pool_wf(old(events)@),
        ensures
            final(self).wf(),
            final(self).min_wt() == old(self).min_wt(),
            final(events).len() == old(events).len(),
            pool_wf(final(events)@),
            old(self).min_wt().key() == 0 ==> final(events)@ == old(events)@,
            forall|i: int|
                0 <= i < old(events).len() ==> unweights(old(self).min_wt(), old(events)[i], #[trigger] final(events)[i]),
    {
        let min_wt = self.min_wt;
        let n = events.len();
        if min_wt.is_zero() {
            proof {
                assert forall|i: int| 0 <= i < n implies unweights(self.min_wt(), events[i], #[trigger] events[i]) by {
                    let u = Real::spec_zero();
                    let w = events[i].central();
                    assert(events[i].wf());
                    assert(w.spec_abs().key() >= 0);
                    assert(unweighted(w, min_wt, u) == w);
                    assert(events[i].weights@ =~= events[i].weights@.update(0, unweighted(w, min_wt, u)));
                }
            }
            return ;
        }
        let mut i: usize = 0;
        while i < n
            invariant
                i <= n,
                n == events.len(),
                n == old(events).len(),
                self.wf(),
                min_wt == self.min_wt,
                self.min_wt() == old(self).min_wt(),
                pool_wf(events@),
                pool_wf(old(events)@),
                forall|j: int| i <= j < n ==> events[j] == old(events)[j],
                forall|j: int| 0 <= j < i ==> unweights(old(self).min_wt(), old(events)[j], #[trigger] events[j]),
            decreases n - i,
        {
            assert(events[i as int].wf());
            let w = events[i].weight();
            let ghost before = events@;
            if w.abs().lt(min_wt) {
                let bits = draw_unit(&mut self.rng);
                let u = Real { bits };
                let new_wt = unweight_weight(w, min_wt, u);
                events[i].weights[0] = new_wt;
                proof {
                    assert(0 <= u.key() < ONE_BITS);
                    assert(events[i as int].weights@ == old(events)[i as int].weights@.update(
                        0,
                        unweighted(w, min_wt, u),
                    ));
                    assert(unweights(old(self).min_wt(), old(events)[i as int], events[i as int]));
                    assert forall|k: int| 0 <= k < events[i as int].weights.len() implies (#[trigger] events[i as int].weights[k]).wf() by {
                        if k > 0 {
                            assert(events[i as int].weights[k] == before[i as int].weights[k]);
                        }
                    }
                }
            } else {
                proof {
                    let u = Real::spec_zero();
                    assert(unweighted(w, min_wt, u) == w);
                    assert(events[i as int].weights@ =~= events[i as int].weights@.update(0, unweighted(w, min_wt, u)));
                }
            }
            proof {
                assert forall|j: int| 0 <= j < events.len() implies (#[trigger] events[j]).wf() by {
                    if j != i {
                        assert(events[j] == before[j]);
                        assert(before[j].wf());
                    }
                }
                assert forall|j: int| 0 <= j < i + 1 implies unweights(old(self).min_wt(), old(events)[j], #[trigger] events[j]) by {
                    if j < i {
                        assert(events[j] == before[j]);
                    }
                }
            }
            i += 1;
        }
    }
}

} // verus!
