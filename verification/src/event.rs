//! The internal event format.
use vstd::prelude::*;
use vstd::multiset::Multiset;
use crate::number::{is_angle, is_logarithm, Real, HALF_BITS, PI_BITS};

verus! {

/// A four-momentum `(E, px, py, pz)`.
#[derive(Clone, Copy, Debug)]
pub struct FourVector {
    pub e: Real,
    pub px: Real,
    pub py: Real,
    pub pz: Real,
}

impl FourVector {
    /// All components are finite numbers and the energy is not negative.
    pub open spec fn wf(self) -> bool {
        &&& self.e.is_finite()
        &&& self.px.is_finite()
        &&& self.py.is_finite()
        &&& self.pz.is_finite()
        &&& self.e.key() >= 0
    }

    /// The transverse momentum: the root of `px * px + py * py`.
    pub open spec fn spec_pt(self) -> Real {
        self.px.spec_mul(self.px).spec_add(self.py.spec_mul(self.py)).spec_sqrt()
    }

    /// The four-momentum with the given components, if they are numbers.
    pub fn new(e: Real, px: Real, py: Real, pz: Real) -> (r: Option<FourVector>)
        ensures
            r == if (FourVector { e, px, py, pz }).wf() {
                Some(FourVector { e, px, py, pz })
            } else {
                None
            },
    {
        if e.finite() && px.finite() && py.finite() && pz.finite() && !e.is_negative() {
            Some(FourVector { e, px, py, pz })
        } else {
            None
        }
    }

    /// The transverse momentum.
    pub fn pt(self) -> (r: Real)
        requires
            self.wf(),
        ensures
            r == self.spec_pt(),
            r.wf(),
            r.key() >= 0,
    {
        let x2 = self.px.mul(self.px);
        let y2 = self.py.mul(self.py);
        proof {
            lemma_square_is_a_number(self.px);
            lemma_square_is_a_number(self.py);
        }
        x2.add(y2).sqrt()
    }

    /// The argument of the logarithm in the rapidity: `(E + pz) / (E - pz)`.
    pub open spec fn spec_rapidity_argument(self) -> Real {
        self.e.spec_add(self.pz).spec_div(self.e.spec_sub(self.pz))
    }

    /// The rapidity is defined: `E + pz` and `E - pz` are positive and not
    /// both infinite, and their quotient is a finite positive number.
    pub open spec fn has_rapidity(self) -> bool {
        let plus = self.e.spec_add(self.pz);
        let minus = self.e.spec_sub(self.pz);
        &&& plus.key() > 0
        &&& minus.key() > 0
        &&& plus.is_finite() || minus.is_finite()
        &&& self.spec_rapidity_argument().is_finite()
        &&& self.spec_rapidity_argument().key() > 0
    }

    /// The argument of the logarithm in the rapidity, `(E + pz) / (E - pz)`,
    /// if the rapidity is defined.
    pub fn rapidity_argument(self) -> (r: Option<Real>)
        requires
            self.wf(),
        ensures
            r == if self.has_rapidity() {
                Some(self.spec_rapidity_argument())
            } else {
                None
            },
    {
        let plus = self.e.add(self.pz);
        let minus = self.e.sub(self.pz);
        if Real::zero().lt(plus) && Real::zero().lt(minus) && (plus.finite() || minus.finite()) {
            let x = plus.div(minus);
            if x.finite() && Real::zero().lt(x) {
                Some(x)
            } else {
                None
            }
        } else {
            None
        }
    }

    /// A particle with this momentum has coordinates: the momentum is valid,
    /// its rapidity is defined and its transverse momentum is finite.
    pub open spec fn has_coordinates(self) -> bool {
        self.wf() && self.has_rapidity() && self.spec_pt().is_finite()
    }
}

/// A finite number can be multiplied by itself.
proof fn lemma_square_is_a_number(x: Real)
    requires
        x.is_finite(),
    ensures
        x.can_mul(x),
{
}

/// An outgoing particle with its coordinates in the space of rapidity,
/// azimuth and transverse momentum.
#[derive(Clone, Copy, Debug)]
pub struct Particle {
    /// The four-momentum.
    pub momentum: FourVector,
    /// The rapidity `ln((E + pz) / (E - pz)) / 2`.
    pub rapidity: Real,
    /// The azimuth, between minus pi and pi.
    pub azimuth: Real,
    /// The transverse momentum.
    pub pt: Real,
}

impl Particle {
    /// The momentum is valid, and the coordinates are finite numbers in their
    /// ranges.
    pub open spec fn wf(self) -> bool {
        &&& self.momentum.wf()
        &&& self.rapidity.is_finite()
        &&& self.azimuth.magnitude() <= PI_BITS
        &&& self.pt.is_finite()
        &&& self.pt.key() >= 0
    }

    /// The particle with the given momentum and coordinates, if the
    /// coordinates are finite numbers in their ranges.
    pub fn from_coordinates(momentum: FourVector, rapidity: Real, azimuth: Real, pt: Real) -> (r: Option<Particle>)
        ensures
            r == if (Particle { momentum, rapidity, azimuth, pt }).wf() {
                Some(Particle { momentum, rapidity, azimuth, pt })
            } else {
                None
            },
    {
        let momentum_ok = momentum.e.finite() && momentum.px.finite() && momentum.py.finite() && momentum.pz.finite()
            && !momentum.e.is_negative();
        if momentum_ok && rapidity.finite() && azimuth.abs().le(Real { bits: PI_BITS }) && pt.finite() && !pt.is_negative() {
            Some(Particle { momentum, rapidity, azimuth, pt })
        } else {
            None
        }
    }

    /// The particle with the given momentum, if its rapidity is defined and
    /// its transverse momentum is finite.
    ///
    /// The logarithm and the azimuth are computed by the machine's
    /// mathematical functions.
    pub fn new(momentum: FourVector) -> (r: Option<Particle>)
        requires
            momentum.wf(),
        ensures
            r.is_some() == momentum.has_coordinates(),
            r matches Some(p) ==> p.momentum == momentum && p.of_momentum(),
            momentum.has_rapidity() ==> exists|log: Real, azimuth: Real|
                {
                    &&& is_logarithm(Particle::log_argument(momentum), log)
                    &&& is_angle(momentum.py, momentum.px, azimuth)
                    &&& r == #[trigger] Particle::spec_with_logarithm(momentum, log, azimuth)
                },
    {
        match momentum.rapidity_argument() {
            None => None,
            Some(x) => {
                let log = x.ln();
                let azimuth = momentum.py.atan2(momentum.px);
                let r = Particle::with_logarithm(momentum, log, azimuth);
                assert(is_logarithm(Particle::log_argument(momentum), log) && log.is_finite());
                r
            },
        }
    }

    /// The number whose logarithm is twice the rapidity of a particle with
    /// the momentum `momentum`: `(E + pz) / (E - pz)`.
    pub open spec fn log_argument(momentum: FourVector) -> Real {
        momentum.spec_rapidity_argument()
    }

    /// The particle with the momentum `momentum`, where `log` is the logarithm
    /// of `(E + pz) / (E - pz)` and `azimuth` the angle of `(px, py)`. Its
    /// rapidity is one half of `log`, and its transverse momentum is the one
    /// of `momentum`. There is no such particle if `log` is not finite, and if
    /// the momentum is not valid or a coordinate is not a finite number in its
    /// range.
    pub open spec fn spec_with_logarithm(momentum: FourVector, log: Real, azimuth: Real) -> Option<Particle> {
        let p = Particle {
            momentum,
            rapidity: Real { bits: HALF_BITS }.spec_mul(log),
            azimuth,
            pt: momentum.spec_pt(),
        };
        if log.is_finite() && p.wf() {
            Some(p)
        } else {
            None
        }
    }

    /// The coordinates of the particle are those of its momentum: the
    /// rapidity is one half of a finite logarithm of `(E + pz) / (E - pz)`,
    /// the azimuth is an angle of `(px, py)`, and the transverse momentum is
    /// the one of the momentum.
    pub open spec fn of_momentum(self) -> bool {
        &&& self.wf()
        &&& self.momentum.has_rapidity()
        &&& self.pt == self.momentum.spec_pt()
        &&& is_angle(self.momentum.py, self.momentum.px, self.azimuth)
        &&& exists|log: Real| #[trigger]
            is_logarithm(Particle::log_argument(self.momentum), log) && log.is_finite() && self.rapidity == (Real {
                bits: HALF_BITS,
            }).spec_mul(log)
    }

    /// The particle with the momentum `momentum`, where `log` is the logarithm
    /// of `(E + pz) / (E - pz)` and `azimuth` the angle of `(px, py)`, see
    /// [`Particle::spec_with_logarithm`]. There is such a particle if the
    /// momentum is valid, `log` and the transverse momentum are finite and
    /// `azimuth` lies between minus pi and pi, and only then.
    pub fn with_logarithm(momentum: FourVector, log: Real, azimuth: Real) -> (r: Option<Particle>)
        ensures
            r == Particle::spec_with_logarithm(momentum, log, azimuth),
            r.is_some() == (momentum.wf() && log.is_finite() && azimuth.magnitude() <= PI_BITS
                && momentum.spec_pt().is_finite()),
    {
        let checked = match FourVector::new(momentum.e, momentum.px, momentum.py, momentum.pz) {
            None => {
                return None;
            },
            Some(checked) => checked,
        };
        if log.finite() {
            let rapidity = Real { bits: HALF_BITS }.mul(log);
            let pt = checked.pt();
            Particle::from_coordinates(momentum, rapidity, azimuth, pt)
        } else {
            None
        }
    }
}

/// The outgoing particles of one species.
#[derive(Debug)]
pub struct Species {
    /// Particle species identifier.
    pub pid: i32,
    /// The particles of this species, by descending transverse momentum.
    pub particles: Vec<Particle>,
}

impl Species {
    /// The particles are valid and come by descending transverse momentum.
    pub open spec fn wf(self) -> bool {
        &&& forall|i: int| 0 <= i < self.particles.len() ==> (#[trigger] self.particles[i]).wf()
        &&& forall|i: int, j: int|
            0 <= i < j < self.particles.len() ==> (#[trigger] self.particles[i]).pt.key() >= (#[trigger] self.particles[j]).pt.key()
    }

    /// Whether the particles are valid and come by descending transverse
    /// momentum.
    pub fn is_valid(&self) -> (r: bool)
        ensures
            r == self.wf(),
    {
        let n = self.particles.len();
        let mut i: usize = 0;
        while i < n
            invariant
                i <= n,
                n == self.particles.len(),
                forall|k: int| 0 <= k < i ==> (#[trigger] self.particles[k]).wf(),
                forall|a: int, b: int|
                    0 <= a < b < i ==> (#[trigger] self.particles[a]).pt.key() >= (#[trigger] self.particles[b]).pt.key(),
            decreases n - i,
        {
            let p = self.particles[i];
            if Particle::from_coordinates(p.momentum, p.rapidity, p.azimuth, p.pt).is_none() {
                return false;
            }
            if i > 0 && self.particles[i - 1].pt.lt(p.pt) {
                return false;
            }
            proof {
                assert forall|a: int, b: int| 0 <= a < b < i + 1 implies (#[trigger] self.particles[a]).pt.key()
                    >= (#[trigger] self.particles[b]).pt.key() by {
                    if b == i && a < i - 1 {
                        assert(self.particles[a].pt.key() >= self.particles[i - 1].pt.key());
                    }
                }
            }
            i += 1;
        }
        true
    }
}

/// The species come by ascending identifier, each once, and each is valid.
pub open spec fn kinematics_wf(outgoing: Seq<Species>) -> bool {
    &&& forall|a: int, b: int| 0 <= a < b < outgoing.len() ==> (#[trigger] outgoing[a]).pid < (#[trigger] outgoing[b]).pid
    &&& forall|s: int| 0 <= s < outgoing.len() ==> (#[trigger] outgoing[s]).wf()
}

/// The particles of a species, each with the identifier of the species.
pub open spec fn species_content(species: Species) -> Seq<(i32, Particle)> {
    Seq::new(species.particles.len() as nat, |i: int| (species.pid, species.particles[i]))
}

/// The particles of the first `n` species, each with the identifier of its
/// species, in the order of the species.
pub open spec fn content(outgoing: Seq<Species>, n: int) -> Seq<(i32, Particle)>
    decreases n,
{
    if n <= 0 {
        Seq::empty()
    } else {
        content(outgoing, n - 1) + species_content(outgoing[n - 1])
    }
}

/// All outgoing particles, each with the identifier of its species, without
/// regard to their order.
pub open spec fn particles(outgoing: Seq<Species>) -> Multiset<(i32, Particle)> {
    content(outgoing, outgoing.len() as int).to_multiset()
}

proof fn lemma_content_same_prefix(a: Seq<Species>, b: Seq<Species>, n: int)
    requires
        0 <= n <= a.len(),
        n <= b.len(),
        forall|i: int| 0 <= i < n ==> a[i] == b[i],
    ensures
        content(a, n) == content(b, n),
    decreases n,
{
    if n > 0 {
        lemma_content_same_prefix(a, b, n - 1);
    }
}

/// Adding a particle adds it to the particles, and changes nothing else.
proof fn lemma_added_content(
    before: Seq<Species>,
    after: Seq<Species>,
    pid: i32,
    particle: Particle,
    s: int,
    pos: int,
    n: int,
)
    requires
        added_at(before, after, pid, particle, s, pos),
        s < n <= after.len(),
    ensures
        content(after, n) == content(before, n - (after.len() - before.len())).insert(
            content(before, s).len() + pos,
            (pid, particle),
        ),
        0 <= content(before, s).len() + pos <= content(before, n - (after.len() - before.len())).len(),
    decreases n,
{
    let x = (pid, particle);
    let offset = content(before, s).len() + pos;
    lemma_content_same_prefix(after, before, s);
    if after.len() == before.len() {
        if n == s + 1 {
            assert(species_content(after[s]) =~= species_content(before[s]).insert(pos, x));
            assert(content(after, n) =~= content(before, n).insert(offset, x));
        } else {
            lemma_added_content(before, after, pid, particle, s, pos, n - 1);
            assert(after[n - 1] == before[n - 1]);
            assert(content(after, n) =~= content(before, n).insert(offset, x));
        }
    } else {
        if n == s + 1 {
            assert(species_content(after[s]) =~= seq![x]);
            assert(content(after, n) =~= content(before, s).insert(offset, x));
        } else {
            lemma_added_content(before, after, pid, particle, s, pos, n - 1);
            assert(after[n - 1] == before[n - 2]);
            assert(content(after, n) =~= content(before, n - 1).insert(offset, x));
        }
    }
}

/// A scattering event.
#[derive(Debug)]
pub struct Event {
    /// Position of the event in the input stream.
    pub id: usize,
    /// Event weights. The first one is the central weight.
    pub weights: Vec<Real>,
    /// Outgoing particles, grouped by species.
    pub outgoing: Vec<Species>,
}

impl Event {
    /// The event has a central weight and all weights are numbers.
    pub open spec fn wf(self) -> bool {
        &&& self.weights.len() > 0
        &&& forall|k: int| 0 <= k < self.weights.len() ==> (#[trigger] self.weights[k]).wf()
    }

    /// The event has a central weight and all weights are finite numbers.
    pub open spec fn finite(self) -> bool {
        &&& self.weights.len() > 0
        &&& forall|k: int| 0 <= k < self.weights.len() ==> (#[trigger] self.weights[k]).is_finite()
    }

    /// The central weight.
    pub open spec fn central(self) -> Real {
        self.weights[0]
    }

    /// Whether the event has finite weights and outgoing particles in their
    /// order, as resampling needs them.
    pub fn is_valid(&self) -> (r: bool)
        ensures
            r == (self.finite() && kinematics_wf(self.outgoing@)),
    {
        if self.weights.len() == 0 || !all_finite(&self.weights) {
            return false;
        }
        let n = self.outgoing.len();
        let mut s: usize = 0;
        while s < n
            invariant
                s <= n,
                n == self.outgoing.len(),
                forall|a: int, b: int|
                    0 <= a < b < s ==> (#[trigger] self.outgoing[a]).pid < (#[trigger] self.outgoing[b]).pid,
                forall|t: int| 0 <= t < s ==> (#[trigger] self.outgoing[t]).wf(),
            decreases n - s,
        {
            if s > 0 && self.outgoing[s - 1].pid >= self.outgoing[s].pid {
                return false;
            }
            if !self.outgoing[s].is_valid() {
                return false;
            }
            proof {
                assert forall|a: int, b: int| 0 <= a < b < s + 1 implies (#[trigger] self.outgoing[a]).pid < (#[trigger] self.outgoing[b]).pid by {
                    if b == s && a < s - 1 {
                        assert(self.outgoing[a].pid < self.outgoing[s - 1].pid);
                    }
                }
            }
            s += 1;
        }
        true
    }

    /// The position of the event in the input stream.
    pub fn id(&self) -> (r: usize)
        ensures
            r == self.id,
    {
        self.id
    }

    /// The central weight.
    pub fn weight(&self) -> (r: Real)
        requires
            self.weights.len() > 0,
        ensures
            r == self.central(),
    {
        self.weights[0]
    }
}

/// All events of the pool have a central weight, and their weights are numbers.
pub open spec fn pool_wf(events: Seq<Event>) -> bool {
    forall|i: int| 0 <= i < events.len() ==> (#[trigger] events[i]).wf()
}

/// All events of the pool have a central weight, and their weights are finite.
pub open spec fn pool_finite(events: Seq<Event>) -> bool {
    forall|i: int| 0 <= i < events.len() ==> (#[trigger] events[i]).finite()
}

/// Whether all the weights are finite numbers.
pub fn all_finite(weights: &Vec<Real>) -> (r: bool)
    ensures
        r == forall|k: int| 0 <= k < weights.len() ==> (#[trigger] weights[k]).is_finite(),
{
    let mut k: usize = 0;
    while k < weights.len()
        invariant
            k <= weights.len(),
            forall|i: int| 0 <= i < k ==> (#[trigger] weights[i]).is_finite(),
        decreases weights.len() - k,
    {
        if !weights[k].finite() {
            return false;
        }
        k += 1;
    }
    true
}

/// Builds an [`Event`] from its weights and its outgoing particles.
#[derive(Debug)]
pub struct EventBuilder {
    weights: Vec<Real>,
    outgoing: Vec<Species>,
}

impl EventBuilder {
    /// The weights that were set.
    pub closed spec fn spec_weights(&self) -> Seq<Real> {
        self.weights@
    }

    /// The outgoing particles that were added, grouped by species.
    pub closed spec fn spec_outgoing(&self) -> Seq<Species> {
        self.outgoing@
    }

    /// The outgoing particles are in their order.
    pub open spec fn wf(&self) -> bool {
        kinematics_wf(self.spec_outgoing())
    }

    /// A builder without weights and particles.
    pub fn new() -> (r: Self)
        ensures
            r.wf(),
            r.spec_weights() == Seq::<Real>::empty(),
            r.spec_outgoing() == Seq::<Species>::empty(),
    {
        EventBuilder { weights: Vec::new(), outgoing: Vec::new() }
    }

    /// Set the weights of the event. The first one is the central weight.
    pub fn weights(&mut self, weights: Vec<Real>)
        ensures
            final(self).spec_weights() == weights@,
            final(self).spec_outgoing() == old(self).spec_outgoing(),
    {
        self.weights = weights;
    }

    /// Add an outgoing particle of the species `pid`.
    ///
    /// The species stay in the order of their identifiers, and the particles of
    /// each species in the order of descending transverse momentum. Among
    /// particles of equal transverse momentum the new one comes last. Returns
    /// the number of the species and the number of the particle in it.
    pub fn add_outgoing(&mut self, pid: i32, particle: Particle) -> (at: (usize, usize))
        requires
            old(self).wf(),
            particle.wf(),
        ensures
            final(self).wf(),
            final(self).spec_weights() == old(self).spec_weights(),
            added_at(old(self).spec_outgoing(), final(self).spec_outgoing(), pid, particle, at.0 as int, at.1 as int),
            particles(final(self).spec_outgoing()) == particles(old(self).spec_outgoing()).insert((pid, particle)),
    {
        let n = self.outgoing.len();
        let mut s: usize = 0;
        while s < n && self.outgoing[s].pid < pid
            invariant
                s <= n,
                n == self.outgoing.len(),
                self.outgoing == old(self).outgoing,
                forall|i: int| 0 <= i < s ==> (#[trigger] self.outgoing[i]).pid < pid,
            decreases n - s,
        {
            s += 1;
        }
        let ghost before = self.outgoing@;
        if s < n && self.outgoing[s].pid == pid {
            let len = self.outgoing[s].particles.len();
            let mut pos: usize = 0;
            assert(before[s as int].wf());
            while pos < len && !self.outgoing[s].particles[pos].pt.lt(particle.pt)
                invariant
                    pos <= len,
                    s < n,
                    n == self.outgoing.len(),
                    len == self.outgoing[s as int].particles.len(),
                    self.outgoing@ == before,
                    forall|i: int|
                        0 <= i < pos ==> (#[trigger] self.outgoing[s as int].particles[i]).pt.key() >= particle.pt.key(),
                decreases len - pos,
            {
                pos += 1;
            }
            self.outgoing[s].particles.insert(pos, particle);
            proof {
                let after = self.outgoing@;
                let old_particles = before[s as int].particles@;
                let new_particles = after[s as int].particles@;
                assert(new_particles == old_particles.insert(pos as int, particle));
                assert forall|i: int, j: int| 0 <= i < j < new_particles.len() implies (#[trigger] new_particles[i]).pt.key()
                    >= (#[trigger] new_particles[j]).pt.key() by {
                    let oi = if i < pos { i } else { i - 1 };
                    let oj = if j < pos { j } else { j - 1 };
                    if i != pos && j != pos {
                        assert(old_particles[oi].pt.key() >= old_particles[oj].pt.key());
                    } else if i == pos {
                        assert(old_particles[pos as int].pt.key() < particle.pt.key());
                        if oj > pos {
                            assert(old_particles[pos as int].pt.key() >= old_particles[oj].pt.key());
                        }
                    }
                }
                assert forall|i: int| 0 <= i < new_particles.len() implies (#[trigger] new_particles[i]).wf() by {
                    let oi = if i < pos { i } else { i - 1 };
                    if i != pos {
                        assert(old_particles[oi].wf());
                    }
                }
                assert forall|t: int| 0 <= t < after.len() implies (#[trigger] after[t]).wf() by {
                    if t != s {
                        assert(after[t] == before[t]);
                        assert(before[t].wf());
                    }
                }
                assert forall|a: int, b: int| 0 <= a < b < after.len() implies (#[trigger] after[a]).pid < (#[trigger] after[b]).pid by {
                    assert(before[a].pid < before[b].pid);
                }
                assert(added_at(before, after, pid, particle, s as int, pos as int));
                lemma_added_content(before, after, pid, particle, s as int, pos as int, after.len() as int);
                vstd::seq_lib::to_multiset_insert(
                    content(before, before.len() as int),
                    content(before, s as int).len() + pos,
                    (pid, particle),
                );
            }
            (s, pos)
        } else {
            let mut particles: Vec<Particle> = Vec::new();
            particles.push(particle);
            self.outgoing.insert(s, Species { pid, particles });
            proof {
                let after = self.outgoing@;
                assert forall|a: int, b: int| 0 <= a < b < after.len() implies (#[trigger] after[a]).pid < (#[trigger] after[b]).pid by {
                    let oa = if a < s { a } else { a - 1 };
                    let ob = if b < s { b } else { b - 1 };
                    if a != s && b != s {
                        assert(before[oa].pid < before[ob].pid);
                    } else if a == s {
                        if ob > s {
                            assert(before[s as int].pid < before[ob].pid);
                        }
                    }
                }
                assert forall|t: int| 0 <= t < after.len() implies (#[trigger] after[t]).wf() by {
                    let ot = if t < s { t } else { t - 1 };
                    if t != s {
                        assert(after[t] == before[ot]);
                        assert(before[ot].wf());
                    }
                }
                assert(after[s as int].particles@ == seq![particle]);
                assert(added_at(before, after, pid, particle, s as int, 0));
                lemma_added_content(before, after, pid, particle, s as int, 0, after.len() as int);
                vstd::seq_lib::to_multiset_insert(
                    content(before, before.len() as int),
                    content(before, s as int).len() as int,
                    (pid, particle),
                );
            }
            (s, 0)
        }
    }

    /// The event with the weights and particles that were given, and id zero.
    /// Returns `None` if there is no weight or a weight is not finite.
    pub fn build(self) -> (r: Option<Event>)
        requires
            self.wf(),
        ensures
            r.is_some() == (self.spec_weights().len() > 0 && forall|k: int|
                0 <= k < self.spec_weights().len() ==> (#[trigger] self.spec_weights()[k]).is_finite()),
            r matches Some(ev) ==> ev.finite() && ev.id == 0 && ev.weights@ == self.spec_weights() && ev.outgoing@
                == self.spec_outgoing() && kinematics_wf(ev.outgoing@),
    {
        if self.weights.len() > 0 && all_finite(&self.weights) {
            Some(Event { id: 0, weights: self.weights, outgoing: self.outgoing })
        } else {
            None
        }
    }
}

/// The outgoing particles `after` are the outgoing particles `before` with
/// one more particle of the species `pid`, which is the particle number `pos`
/// of the species number `s`.
///
/// If the species was there, the particle was inserted behind the particles
/// with at least its transverse momentum. If not, the species was inserted
/// behind the species with smaller identifiers.
pub open spec fn added_at(
    before: Seq<Species>,
    after: Seq<Species>,
    pid: i32,
    particle: Particle,
    s: int,
    pos: int,
) -> bool {
    &&& 0 <= s < after.len()
    &&& after[s].pid == pid
    &&& forall|i: int| 0 <= i < s ==> (#[trigger] after[i]) == before[i] && before[i].pid < pid
    &&& if s < before.len() && before[s].pid == pid {
        &&& after.len() == before.len()
        &&& 0 <= pos <= before[s].particles.len()
        &&& after[s].particles@ == before[s].particles@.insert(pos, particle)
        &&& forall|i: int| 0 <= i < pos ==> (#[trigger] before[s].particles[i]).pt.key() >= particle.pt.key()
        &&& forall|i: int|
            pos <= i < before[s].particles.len() ==> (#[trigger] before[s].particles[i]).pt.key() < particle.pt.key()
        &&& forall|i: int| s < i < after.len() ==> (#[trigger] after[i]) == before[i]
    } else {
        &&& after.len() == before.len() + 1
        &&& pos == 0
        &&& after[s].particles@ == seq![particle]
        &&& forall|i: int| s < i < after.len() ==> (#[trigger] after[i]) == before[i - 1] && before[i - 1].pid > pid
    }
}

} // verus!
