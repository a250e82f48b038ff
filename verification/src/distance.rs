//! Distances between events.
use vstd::prelude::*;
use crate::event::{kinematics_wf, Event, Particle, Species};
use crate::number::{Real, PI_BITS, TWO_PI_BITS};

verus! {

/// A distance between events. It depends on the outgoing particles only.
pub trait Distance {
    /// The invariant of the distance.
    spec fn wf(&self) -> bool;

    /// The outgoing particles for which the distance is defined.
    spec fn accepts(&self, outgoing: Seq<Species>) -> bool;

    /// The distance between two events with the given outgoing particles.
    spec fn spec_distance(&self, a: Seq<Species>, b: Seq<Species>) -> Real;

    /// Compute the distance between two events.
    fn distance(&self, ev1: &Event, ev2: &Event) -> (d: Real)
        requires
            self.wf(),
            self.accepts(ev1.outgoing@),
            self.accepts(ev2.outgoing@),
        ensures
            d == self.spec_distance(ev1.outgoing@, ev2.outgoing@),
    ;
}

/// All events of the pool have outgoing particles for which `distance` is
/// defined.
pub open spec fn pool_accepted<D: Distance>(distance: &D, events: Seq<Event>) -> bool {
    &&& distance.wf()
    &&& forall|i: int| 0 <= i < events.len() ==> distance.accepts((#[trigger] events[i]).outgoing@)
}

/// The distance between the events of a pool, given by their index.
pub struct DistWrapper<'a, 'b, D: Distance> {
    ev_dist: &'a D,
    events: &'b [Event],
}

impl<'a, 'b, D: Distance> DistWrapper<'a, 'b, D> {
    /// The distance between events.
    pub closed spec fn ev_dist(&self) -> &D {
        self.ev_dist
    }

    /// The pool of events.
    pub closed spec fn events(&self) -> Seq<Event> {
        self.events@
    }

    /// The distance `ev_dist` between the events of the pool `events`.
    pub fn new(ev_dist: &'a D, events: &'b [Event]) -> (r: Self)
        requires
            pool_accepted(ev_dist, events@),
        ensures
            r.ev_dist() == ev_dist,
            r.events() == events@,
            crate::traits::Distance::wf(&r),
            crate::traits::Distance::npoints(&r) == events.len(),
    {
        DistWrapper { ev_dist, events }
    }
}

impl<'a, 'b, D: Distance> crate::traits::Distance for DistWrapper<'a, 'b, D> {
    open spec fn wf(&self) -> bool {
        pool_accepted(self.ev_dist(), self.events())
    }

    open spec fn npoints(&self) -> nat {
        self.events().len()
    }

    open spec fn dist(&self, i: int, j: int) -> Real {
        self.ev_dist().spec_distance(self.events()[i].outgoing@, self.events()[j].outgoing@)
    }

    fn distance(&self, i: usize, j: usize) -> (d: Real) {
        self.ev_dist.distance(&self.events[i], &self.events[j])
    }
}

/// The absolute difference of two numbers: the smaller one is subtracted from
/// the larger one.
pub open spec fn abs_diff(a: Real, b: Real) -> Real {
    if a.key() > b.key() || (a.key() == b.key() && a.bits >= b.bits) {
        a.spec_sub(b)
    } else {
        b.spec_sub(a)
    }
}

/// The absolute difference of two finite numbers.
pub fn absolute_difference(a: Real, b: Real) -> (r: Real)
    requires
        a.is_finite(),
        b.is_finite(),
    ensures
        r == abs_diff(a, b),
        r.wf(),
        r.key() >= 0,
        a == b ==> r.key() == 0,
{
    if b.lt(a) || (a.same(b) && a.to_bits() >= b.to_bits()) {
        a.sub(b)
    } else {
        b.sub(a)
    }
}

/// The distance of two azimuths along the shorter arc. A difference of more
/// than two pi, which azimuths between minus pi and pi do not have, counts
/// as zero.
pub open spec fn azimuth_distance(a: Real, b: Real) -> Real {
    let d = abs_diff(a, b);
    let rest = Real { bits: TWO_PI_BITS }.spec_sub(d);
    if d.key() <= PI_BITS {
        d
    } else if rest.key() < 0 {
        Real::spec_zero()
    } else {
        rest
    }
}

/// A difference of transverse momenta, scaled by the weight `tau`.
pub open spec fn scaled(tau: Real, d: Real) -> Real {
    if tau.key() == 0 {
        Real::spec_zero()
    } else {
        tau.spec_mul(d)
    }
}

/// The root of the sum of the squares of three numbers.
pub open spec fn norm3(x: Real, y: Real, z: Real) -> Real {
    x.spec_mul(x).spec_add(y.spec_mul(y)).spec_add(z.spec_mul(z)).spec_sqrt()
}

/// The distance of two particles in the space of rapidity, azimuth and scaled
/// transverse momentum.
pub open spec fn particle_distance(tau: Real, a: Particle, b: Particle) -> Real {
    norm3(
        abs_diff(a.rapidity, b.rapidity),
        azimuth_distance(a.azimuth, b.azimuth),
        scaled(tau, abs_diff(a.pt, b.pt)),
    )
}

/// The distance of a particle from the origin of the space of rapidity,
/// azimuth and scaled transverse momentum.
pub open spec fn particle_norm(tau: Real, a: Particle) -> Real {
    norm3(a.rapidity.spec_abs(), a.azimuth.spec_abs(), scaled(tau, a.pt))
}

/// What the position `i` of two lists of particles adds to the distance: the
/// distance of the two particles at this position, or the norm of the one
/// particle if the other list is shorter.
pub open spec fn position_distance(tau: Real, a: Seq<Particle>, b: Seq<Particle>, i: int) -> Real {
    if i < a.len() && i < b.len() {
        particle_distance(tau, a[i], b[i])
    } else if i < a.len() {
        particle_norm(tau, a[i])
    } else {
        particle_norm(tau, b[i])
    }
}

/// The number `acc` plus what the first `n` positions of two lists of
/// particles add to the distance, added in the order of the positions.
pub open spec fn species_distance(tau: Real, acc: Real, a: Seq<Particle>, b: Seq<Particle>, n: int) -> Real
    decreases n,
{
    if n <= 0 {
        acc
    } else {
        species_distance(tau, acc, a, b, n - 1).spec_add(position_distance(tau, a, b, n - 1))
    }
}

/// The longer of two lengths.
pub open spec fn longer(a: int, b: int) -> int {
    if a >= b {
        a
    } else {
        b
    }
}

/// The number `acc` plus what the species from number `i` of `a` and from
/// number `j` of `b` on add to the distance. Species are taken in the order of
/// their identifiers; one that only one event has is held against an empty
/// list.
pub open spec fn merged_distance(tau: Real, acc: Real, a: Seq<Species>, b: Seq<Species>, i: int, j: int) -> Real
    decreases longer(a.len() - i, 0) + longer(b.len() - j, 0),
{
    if i < 0 || j < 0 || (i >= a.len() && j >= b.len()) {
        acc
    } else if j >= b.len() || (i < a.len() && a[i].pid < b[j].pid) {
        let with = species_distance(tau, acc, a[i].particles@, Seq::empty(), a[i].particles.len() as int);
        merged_distance(tau, with, a, b, i + 1, j)
    } else if i >= a.len() || b[j].pid < a[i].pid {
        let with = species_distance(tau, acc, Seq::empty(), b[j].particles@, b[j].particles.len() as int);
        merged_distance(tau, with, a, b, i, j + 1)
    } else {
        let n = longer(a[i].particles.len() as int, b[j].particles.len() as int);
        let with = species_distance(tau, acc, a[i].particles@, b[j].particles@, n);
        merged_distance(tau, with, a, b, i + 1, j + 1)
    }
}

/// Two events have the same outgoing particles.
pub open spec fn same_kinematics(a: Seq<Species>, b: Seq<Species>) -> bool {
    &&& a.len() == b.len()
    &&& forall|s: int| 0 <= s < a.len() ==> (#[trigger] a[s]).pid == b[s].pid && a[s].particles@ == b[s].particles@
}

/// The distance between events is the sum over the species of the distances
/// between the particles of that species, paired in the order of descending
/// transverse momentum. The distance between two particles is the Euclidean
/// distance in rapidity, azimuth and transverse momentum, where the last is
/// scaled by a weight.
#[derive(Clone, Copy, Debug)]
pub struct EuclWithScaledPt {
    pt_weight: Real,
}

impl EuclWithScaledPt {
    /// The weight of the transverse momentum.
    pub closed spec fn pt_weight(&self) -> Real {
        self.pt_weight
    }

    /// The distance with the weight `pt_weight` of the transverse momentum,
    /// if this is a finite number that is not negative.
    pub fn new(pt_weight: Real) -> (r: Option<Self>)
        ensures
            r.is_some() == (pt_weight.is_finite() && pt_weight.key() >= 0),
            r matches Some(d) ==> d.pt_weight() == pt_weight && Distance::wf(&d),
    {
        if pt_weight.finite() && !pt_weight.is_negative() {
            Some(EuclWithScaledPt { pt_weight })
        } else {
            None
        }
    }

    /// A difference of transverse momenta, scaled by the weight.
    fn scale(&self, d: Real) -> (r: Real)
        requires
            self.pt_weight.is_finite(),
            self.pt_weight.key() >= 0,
            d.wf(),
            d.key() >= 0,
        ensures
            r == scaled(self.pt_weight, d),
            r.wf(),
            r.key() >= 0,
            d.key() == 0 ==> r.key() == 0,
    {
        if self.pt_weight.is_zero() {
            Real::zero()
        } else {
            self.pt_weight.mul(d)
        }
    }

    /// The root of the sum of the squares of three numbers that are not
    /// negative.
    fn norm(x: Real, y: Real, z: Real) -> (r: Real)
        requires
            x.wf() && x.key() >= 0,
            y.wf() && y.key() >= 0,
            z.wf() && z.key() >= 0,
        ensures
            r == norm3(x, y, z),
            r.wf(),
            r.key() >= 0,
            x.key() == 0 && y.key() == 0 && z.key() == 0 ==> r.key() == 0,
    {
        let x2 = x.mul(x);
        let y2 = y.mul(y);
        let z2 = z.mul(z);
        x2.add(y2).add(z2).sqrt()
    }

    /// The distance of two particles.
    pub fn particle_distance(&self, a: &Particle, b: &Particle) -> (r: Real)
        requires
            Distance::wf(self),
            a.wf(),
            b.wf(),
        ensures
            r == particle_distance(self.pt_weight(), *a, *b),
            r.wf(),
            r.key() >= 0,
            *a == *b ==> r.key() == 0,
    {
        let dy = absolute_difference(a.rapidity, b.rapidity);
        let d = absolute_difference(a.azimuth, b.azimuth);
        let pi = Real { bits: PI_BITS };
        let dphi = if pi.lt(d) {
            let two_pi = Real { bits: TWO_PI_BITS };
            let rest = two_pi.sub(d);
            if rest.is_negative() {
                Real::zero()
            } else {
                rest
            }
        } else {
            d
        };
        let dpt = self.scale(absolute_difference(a.pt, b.pt));
        Self::norm(dy, dphi, dpt)
    }

    /// The distance of a particle from the origin.
    pub fn particle_norm(&self, a: &Particle) -> (r: Real)
        requires
            Distance::wf(self),
            a.wf(),
        ensures
            r == particle_norm(self.pt_weight(), *a),
            r.wf(),
            r.key() >= 0,
    {
        let pt = self.scale(a.pt);
        Self::norm(a.rapidity.abs(), a.azimuth.abs(), pt)
    }

    /// The number `acc` plus what two lists of particles of one species add
    /// to the distance.
    fn add_species(&self, acc: Real, a: &Vec<Particle>, b: &Vec<Particle>) -> (r: Real)
        requires
            Distance::wf(self),
            acc.wf(),
            acc.key() >= 0,
            forall|i: int| 0 <= i < a.len() ==> (#[trigger] a[i]).wf(),
            forall|i: int| 0 <= i < b.len() ==> (#[trigger] b[i]).wf(),
        ensures
            r == species_distance(self.pt_weight(), acc, a@, b@, longer(a.len() as int, b.len() as int)),
            r.wf(),
            r.key() >= 0,
            acc.key() == 0 && a@ == b@ ==> r.key() == 0,
    {
        let n = if a.len() >= b.len() {
            a.len()
        } else {
            b.len()
        };
        let mut acc = acc;
        let ghost acc0 = acc;
        let mut i: usize = 0;
        while i < n
            invariant
                i <= n,
                n == longer(a.len() as int, b.len() as int),
                Distance::wf(self),
                forall|k: int| 0 <= k < a.len() ==> (#[trigger] a[k]).wf(),
                forall|k: int| 0 <= k < b.len() ==> (#[trigger] b[k]).wf(),
                acc == species_distance(self.pt_weight(), acc0, a@, b@, i as int),
                acc.wf(),
                acc.key() >= 0,
                acc0.key() == 0 && a@ == b@ ==> acc.key() == 0,
            decreases n - i,
        {
            let term = if i < a.len() && i < b.len() {
                self.particle_distance(&a[i], &b[i])
            } else if i < a.len() {
                self.particle_norm(&a[i])
            } else {
                self.particle_norm(&b[i])
            };
            acc = acc.add(term);
            i += 1;
        }
        acc
    }

    /// The distance between two events.
    ///
    /// It is zero for two events with the same outgoing particles.
    pub fn event_distance(&self, ev1: &Event, ev2: &Event) -> (d: Real)
        requires
            Distance::wf(self),
            kinematics_wf(ev1.outgoing@),
            kinematics_wf(ev2.outgoing@),
        ensures
            d == merged_distance(self.pt_weight(), Real::spec_zero(), ev1.outgoing@, ev2.outgoing@, 0, 0),
            d.wf(),
            d.key() >= 0,
            same_kinematics(ev1.outgoing@, ev2.outgoing@) ==> d.key() == 0,
    {
        let ghost a = ev1.outgoing@;
        let ghost b = ev2.outgoing@;
        let ghost tau = self.pt_weight();
        let na = ev1.outgoing.len();
        let nb = ev2.outgoing.len();
        let empty: Vec<Particle> = Vec::new();
        let mut acc = Real::zero();
        let mut i: usize = 0;
        let mut j: usize = 0;
        while i < na || j < nb
            invariant
                i <= na,
                j <= nb,
                na == a.len(),
                nb == b.len(),
                a == ev1.outgoing@,
                b == ev2.outgoing@,
                tau == self.pt_weight(),
                empty@ == Seq::<Particle>::empty(),
                Distance::wf(self),
                kinematics_wf(a),
                kinematics_wf(b),
                acc.wf(),
                acc.key() >= 0,
                merged_distance(tau, acc, a, b, i as int, j as int) == merged_distance(tau, Real::spec_zero(), a, b, 0, 0),
                same_kinematics(a, b) ==> i == j && acc.key() == 0,
            decreases (na - i) + (nb - j),
        {
            if j >= nb || (i < na && ev1.outgoing[i].pid < ev2.outgoing[j].pid) {
                assert(a[i as int].wf());
                acc = self.add_species(acc, &ev1.outgoing[i].particles, &empty);
                i += 1;
            } else if i >= na || ev2.outgoing[j].pid < ev1.outgoing[i].pid {
                assert(b[j as int].wf());
                acc = self.add_species(acc, &empty, &ev2.outgoing[j].particles);
                j += 1;
            } else {
                assert(a[i as int].wf());
                assert(b[j as int].wf());
                acc = self.add_species(acc, &ev1.outgoing[i].particles, &ev2.outgoing[j].particles);
                i += 1;
                j += 1;
            }
        }
        acc
    }
}

impl Distance for EuclWithScaledPt {
    open spec fn wf(&self) -> bool {
        self.pt_weight().is_finite() && self.pt_weight().key() >= 0
    }

    open spec fn accepts(&self, outgoing: Seq<Species>) -> bool {
        kinematics_wf(outgoing)
    }

    open spec fn spec_distance(&self, a: Seq<Species>, b: Seq<Species>) -> Real {
        merged_distance(self.pt_weight(), Real::spec_zero(), a, b, 0, 0)
    }

    fn distance(&self, ev1: &Event, ev2: &Event) -> (d: Real) {
        self.event_distance(ev1, ev2)
    }
}

proof fn lemma_abs_diff_symmetric(a: Real, b: Real)
    ensures
        abs_diff(a, b) == abs_diff(b, a),
{
}

proof fn lemma_position_distance_symmetric(tau: Real, a: Seq<Particle>, b: Seq<Particle>, i: int)
    requires
        0 <= i < longer(a.len() as int, b.len() as int),
    ensures
        position_distance(tau, a, b, i) == position_distance(tau, b, a, i),
{
    if i < a.len() && i < b.len() {
        lemma_abs_diff_symmetric(a[i].rapidity, b[i].rapidity);
        lemma_abs_diff_symmetric(a[i].azimuth, b[i].azimuth);
        lemma_abs_diff_symmetric(a[i].pt, b[i].pt);
    }
}

proof fn lemma_species_distance_symmetric(tau: Real, acc: Real, a: Seq<Particle>, b: Seq<Particle>, n: int)
    requires
        n <= longer(a.len() as int, b.len() as int),
    ensures
        species_distance(tau, acc, a, b, n) == species_distance(tau, acc, b, a, n),
    decreases n,
{
    if n > 0 {
        lemma_species_distance_symmetric(tau, acc, a, b, n - 1);
        lemma_position_distance_symmetric(tau, a, b, n - 1);
    }
}

proof fn lemma_merged_distance_symmetric(tau: Real, acc: Real, a: Seq<Species>, b: Seq<Species>, i: int, j: int)
    requires
        0 <= i <= a.len(),
        0 <= j <= b.len(),
    ensures
        merged_distance(tau, acc, a, b, i, j) == merged_distance(tau, acc, b, a, j, i),
    decreases (a.len() - i) + (b.len() - j),
{
    if i >= a.len() && j >= b.len() {
    } else if j >= b.len() || (i < a.len() && a[i].pid < b[j].pid) {
        let n = a[i].particles.len() as int;
        lemma_species_distance_symmetric(tau, acc, a[i].particles@, Seq::empty(), n);
        let with = species_distance(tau, acc, a[i].particles@, Seq::empty(), n);
        lemma_merged_distance_symmetric(tau, with, a, b, i + 1, j);
    } else if i >= a.len() || b[j].pid < a[i].pid {
        let n = b[j].particles.len() as int;
        lemma_species_distance_symmetric(tau, acc, Seq::empty(), b[j].particles@, n);
        let with = species_distance(tau, acc, Seq::empty(), b[j].particles@, n);
        lemma_merged_distance_symmetric(tau, with, a, b, i, j + 1);
    } else {
        let n = longer(a[i].particles.len() as int, b[j].particles.len() as int);
        lemma_species_distance_symmetric(tau, acc, a[i].particles@, b[j].particles@, n);
        let with = species_distance(tau, acc, a[i].particles@, b[j].particles@, n);
        lemma_merged_distance_symmetric(tau, with, a, b, i + 1, j + 1);
    }
}

/// The distance between two events does not depend on their order.
pub proof fn lemma_distance_symmetric(distance: EuclWithScaledPt, a: Seq<Species>, b: Seq<Species>)
    ensures
        distance.spec_distance(a, b) == distance.spec_distance(b, a),
{
    lemma_merged_distance_symmetric(distance.pt_weight(), Real::spec_zero(), a, b, 0, 0);
}

} // verus!
