//! Conversion of input records into the internal event format.
use vstd::prelude::*;
use crate::event::{kinematics_wf, particles, Event, EventBuilder, FourVector, Particle};
use crate::number::Real;

verus! {

/// Species identifier of a jet.
pub const PID_JET: i32 = 81;

/// Species identifier of a lepton that was clustered with nearby photons.
pub const PID_DRESSED_LEPTON: i32 = 82;

/// A weight of an input record.
#[derive(Debug)]
pub struct WeightInfo {
    /// The weight itself
    pub weight: Option<Real>,
    /// Weight name
    pub name: Option<String>,
}

/// A particle of an input record.
#[derive(Debug)]
pub struct InputParticle {
    /// Particle species identifier
    pub id: Option<i32>,
    /// Four-momentum
    pub p: Option<FourVector>,
    /// Whether the particle is an outgoing particle
    pub outgoing: bool,
}

/// An input record: what a reader knows of an event.
#[derive(Debug)]
pub struct InputEvent {
    /// Event weights. The first one is the central weight.
    pub weights: Vec<WeightInfo>,
    /// Particles involved in the scattering
    pub particles: Vec<InputParticle>,
}

/// Error converting to internal event format
#[derive(Debug)]
pub enum ConversionError {
    /// A named event weight was not found. Holds the name and the names of
    /// the weights that the record has.
    WeightNotFound(String, Vec<String>),
    /// The record has no central weight.
    NoWeight,
    /// The weight with this number is missing or is not a finite number.
    BadWeight(usize),
    /// The outgoing particle with this number has no species identifier.
    NoId(usize),
    /// The species identifier of the outgoing particle with this number has
    /// no absolute value.
    BadId(usize),
    /// The outgoing particle with this number has no momentum.
    NoMomentum(usize),
    /// The momentum of the outgoing particle with this number has no finite
    /// coordinates.
    BadMomentum(usize),
    /// The momentum of the jet with this number has no finite coordinates.
    BadJet(usize),
    /// The momentum of the dressed lepton with this number has no finite
    /// coordinates.
    BadDressedLepton(usize),
}

/// The name `name` is one of `names`.
pub open spec fn listed(names: Seq<String>, name: Seq<char>) -> bool {
    exists|i: int| 0 <= i < names.len() && (#[trigger] names[i])@ == name
}

/// The weight has a name that is one of `names`.
pub open spec fn wanted(w: WeightInfo, names: Seq<String>) -> bool {
    w.name.is_some() && listed(names, w.name.unwrap()@)
}

/// The weight is there and is a finite number.
pub open spec fn usable(w: WeightInfo) -> bool {
    w.weight.is_some() && w.weight.unwrap().is_finite()
}

/// The weights among the first `n` that have one of the names `names`, in
/// their order.
pub open spec fn selected(weights: Seq<WeightInfo>, names: Seq<String>, n: int) -> Seq<Real>
    decreases n,
{
    if n <= 0 {
        Seq::empty()
    } else if wanted(weights[n - 1], names) {
        selected(weights, names, n - 1).push(weights[n - 1].weight.unwrap())
    } else {
        selected(weights, names, n - 1)
    }
}

/// The weight number `k` is used and is missing or not finite.
pub open spec fn bad_weight(weights: Seq<WeightInfo>, names: Seq<String>, k: int) -> bool {
    0 <= k < weights.len() && (k == 0 || wanted(weights[k], names)) && !usable(weights[k])
}

/// The weight has the name `name`.
pub open spec fn has_name(w: WeightInfo, name: Seq<char>) -> bool {
    w.name.is_some() && w.name.unwrap()@ == name
}

/// One of the weights has the name `name`.
pub open spec fn seen(weights: Seq<WeightInfo>, name: Seq<char>) -> bool {
    exists|k: int| 0 <= k < weights.len() && has_name(#[trigger] weights[k], name)
}

/// The names of the first `n` weights, as far as they have one.
pub open spec fn weight_names(weights: Seq<WeightInfo>, n: int) -> Seq<Seq<char>>
    decreases n,
{
    if n <= 0 {
        Seq::empty()
    } else {
        match weights[n - 1].name {
            Some(name) => weight_names(weights, n - 1).push(name@),
            None => weight_names(weights, n - 1),
        }
    }
}

/// The texts as sequences of characters.
pub open spec fn texts(v: Seq<String>) -> Seq<Seq<char>> {
    Seq::new(v.len(), |i: int| v[i]@)
}

/// Whether `name` is one of `names`.
fn is_listed(names: &Vec<String>, name: &String) -> (r: bool)
    ensures
        r == listed(names@, name@),
{
    let mut i: usize = 0;
    while i < names.len()
        invariant
            i <= names.len(),
            forall|k: int| 0 <= k < i ==> (#[trigger] names[k])@ != name@,
        decreases names.len() - i,
    {
        if names[i] == *name {
            return true;
        }
        i += 1;
    }
    false
}

/// Whether one of the weights has the name `name`.
fn is_seen(weights: &Vec<WeightInfo>, name: &String) -> (r: bool)
    ensures
        r == seen(weights@, name@),
{
    let mut k: usize = 0;
    while k < weights.len()
        invariant
            k <= weights.len(),
            forall|j: int| 0 <= j < k ==> !has_name(#[trigger] weights[j], name@),
        decreases weights.len() - k,
    {
        match &weights[k].name {
            Some(n) => {
                if *n == *name {
                    return true;
                }
            },
            None => {},
        }
        k += 1;
    }
    false
}

/// The names of the weights, as far as they have one.
fn names_of(weights: &Vec<WeightInfo>) -> (r: Vec<String>)
    ensures
        texts(r@) == weight_names(weights@, weights.len() as int),
{
    let mut r: Vec<String> = Vec::new();
    let mut k: usize = 0;
    while k < weights.len()
        invariant
            k <= weights.len(),
            texts(r@) == weight_names(weights@, k as int),
        decreases weights.len() - k,
    {
        let ghost before = r@;
        match &weights[k].name {
            Some(n) => {
                let copy = n.clone();
                r.push(copy);
                assert(texts(r@) =~= texts(before).push(n@));
            },
            None => {},
        }
        k += 1;
    }
    r
}

/// The record has a central weight, each weight that is used is a finite
/// number, and each of the names is the name of a weight.
pub open spec fn weights_found(weights: Seq<WeightInfo>, names: Seq<String>) -> bool {
    &&& weights.len() > 0
    &&& forall|k: int| !bad_weight(weights, names, k)
    &&& forall|i: int| 0 <= i < names.len() ==> seen(weights, (#[trigger] names[i])@)
}

/// The weights of the converted event: the central weight, which is the
/// first weight of the record, and then each weight of the record that has
/// one of the names `names`.
pub open spec fn extracted(weights: Seq<WeightInfo>, names: Seq<String>) -> Seq<Real> {
    seq![weights[0].weight.unwrap()] + selected(weights, names, weights.len() as int)
}

/// The error `e` is the one that the weights of a record give: there is no
/// central weight, or else `e` names the first weight that is used and is
/// missing or not finite, or else the first name that is not the name of a
/// weight, together with the names of all weights.
pub open spec fn weights_error(weights: Seq<WeightInfo>, names: Seq<String>, e: ConversionError) -> bool {
    match e {
        ConversionError::NoWeight => weights.len() == 0 || weights[0].weight.is_none(),
        ConversionError::BadWeight(k) => {
            &&& weights.len() > 0
            &&& weights[0].weight.is_some()
            &&& bad_weight(weights, names, k as int)
            &&& forall|j: int| 0 <= j < k ==> !bad_weight(weights, names, j)
        },
        ConversionError::WeightNotFound(name, all) => {
            &&& weights.len() > 0
            &&& forall|k: int| !bad_weight(weights, names, k)
            &&& exists|i: int|
                0 <= i < names.len() && (#[trigger] names[i])@ == name@ && !seen(weights, name@) && forall|j: int|
                    0 <= j < i ==> seen(weights, (#[trigger] names[j])@)
            &&& texts(all@) == weight_names(weights, weights.len() as int)
        },
        _ => false,
    }
}

/// The weights of the converted event, see [`extracted`].
///
/// It is an error if the record has no central weight, if one of these
/// weights is missing or not finite, and if none of the weights has one of
/// the names. The first weight that cannot be used is reported, or else the
/// first name that was not found.
pub fn extract_weights(event: &InputEvent, weight_names: &Vec<String>) -> (r: Result<Vec<Real>, ConversionError>)
    ensures
        match r {
            Ok(w) => weights_found(event.weights@, weight_names@) && w@ == extracted(event.weights@, weight_names@)
                && forall|k: int| 0 <= k < w.len() ==> (#[trigger] w[k]).is_finite(),
            Err(e) => weights_error(event.weights@, weight_names@, e),
        },
{
    let n = event.weights.len();
    if n == 0 {
        return Err(ConversionError::NoWeight);
    }
    let central = match event.weights[0].weight {
        None => {
            return Err(ConversionError::NoWeight);
        },
        Some(w) => w,
    };
    if !central.finite() {
        return Err(ConversionError::BadWeight(0));
    }
    let mut weights: Vec<Real> = Vec::new();
    weights.push(central);
    let mut k: usize = 0;
    while k < n
        invariant
            k <= n,
            n == event.weights.len(),
            usable(event.weights[0]),
            central == event.weights[0].weight.unwrap(),
            forall|j: int| 0 <= j < k ==> !bad_weight(event.weights@, weight_names@, j),
            weights@ == seq![central] + selected(event.weights@, weight_names@, k as int),
            forall|j: int| 0 <= j < weights.len() ==> (#[trigger] weights[j]).is_finite(),
        decreases n - k,
    {
        let is_wanted = match &event.weights[k].name {
            Some(name) => is_listed(weight_names, name),
            None => false,
        };
        if is_wanted {
            match event.weights[k].weight {
                Some(w) => {
                    if !w.finite() {
                        return Err(ConversionError::BadWeight(k));
                    }
                    let ghost before = weights@;
                    weights.push(w);
                    assert(weights@ =~= seq![central] + selected(event.weights@, weight_names@, k + 1));
                },
                None => {
                    return Err(ConversionError::BadWeight(k));
                },
            }
        }
        k += 1;
    }
    let mut i: usize = 0;
    while i < weight_names.len()
        invariant
            i <= weight_names.len(),
            event.weights.len() > 0,
            forall|k: int| !bad_weight(event.weights@, weight_names@, k),
            forall|j: int| 0 <= j < i ==> seen(event.weights@, (#[trigger] weight_names[j])@),
        decreases weight_names.len() - i,
    {
        if !is_seen(&event.weights, &weight_names[i]) {
            let name = weight_names[i].clone();
            let all = names_of(&event.weights);
            return Err(ConversionError::WeightNotFound(name, all));
        }
        i += 1;
    }
    Ok(weights)
}

/// A jet clustering algorithm.
#[derive(Clone, Copy, Debug, PartialEq, Eq, Structural)]
pub enum JetAlgorithm {
    /// The anti-kt algorithm.
    AntiKt,
    /// The Cambridge-Aachen algorithm.
    CambridgeAachen,
    /// The kt algorithm.
    Kt,
}

/// Definition of a jet.
#[derive(Clone, Copy, Debug)]
pub struct JetDefinition {
    /// Jet algorithm
    pub algorithm: JetAlgorithm,
    /// Jet radius parameter
    pub radius: Real,
    /// Minimum jet transverse momentum
    pub min_pt: Real,
}

/// Whether the species identifier is listed as a hadron.
pub uninterp spec fn listed_hadron(id: i32) -> bool;

/// Calls `particle_id`'s table `HADRONS` through `contains`: whether the
/// species identifier is one of the hadrons that the table lists.
#[verifier::external_body]
fn is_listed_hadron(id: i32) -> (r: bool)
    ensures
        r == listed_hadron(id),
{
    particle_id::hadrons::HADRONS.contains(&particle_id::ParticleID::new(id))
}

/// The absolute value of a species identifier.
pub open spec fn abs_id(id: i32) -> int {
    if id < 0 {
        -id
    } else {
        id as int
    }
}

/// A neutrino or an antineutrino: a lepton with an even identifier.
pub open spec fn spec_is_neutrino(id: i32) -> bool {
    11 <= abs_id(id) <= 18 && abs_id(id) % 2 == 0
}

/// Calls `particle_id`'s `ParticleID::is_neutrino`: whether the identifier
/// is the one of a lepton, from 11 to 18, and even.
#[verifier::external_body]
fn is_neutrino(id: i32) -> (r: bool)
    ensures
        r == (11 <= id <= 18 && id % 2 == 0),
{
    particle_id::ParticleID::new(id).is_neutrino()
}

/// A quark other than the top quark, an antiquark of these, or a gluon.
pub open spec fn spec_is_parton(id: i32) -> bool {
    1 <= abs_id(id) <= 5 || id == 21
}

/// An electron, a muon, or one of their antiparticles.
pub open spec fn spec_is_light_lepton(id: i32) -> bool {
    abs_id(id) == 11 || abs_id(id) == 13
}

/// A photon.
pub open spec fn spec_is_photon(id: i32) -> bool {
    id == 22
}

/// What becomes of an outgoing particle in the conversion.
#[derive(Clone, Copy, Debug, PartialEq, Eq, Structural)]
pub enum ParticleClass {
    /// The particle is clustered into jets.
    Parton,
    /// The particle is clustered into dressed leptons.
    Lepton,
    /// The particle is taken over as it is.
    Direct,
    /// The particle is left out.
    Dropped,
}

/// How outgoing particles are treated in the conversion.
#[derive(Clone, Copy, Debug, PartialEq, Eq, Structural)]
pub struct Treatment {
    /// Partons and hadrons are clustered into jets.
    pub jets: bool,
    /// Light leptons and photons are clustered into dressed leptons.
    pub leptons: bool,
    /// Neutrinos are kept.
    pub neutrinos: bool,
}

/// What becomes of an outgoing particle of the species `id`.
///
/// Without jet clustering every particle is taken over. With it, partons and
/// hadrons go into jets; light leptons and photons go into dressed leptons if
/// leptons are clustered; neutrinos are left out unless they are kept; every
/// other particle is taken over.
pub open spec fn class_of(treatment: Treatment, id: i32) -> ParticleClass {
    if !treatment.jets {
        ParticleClass::Direct
    } else if spec_is_parton(id) || listed_hadron(abs_id(id) as i32) {
        ParticleClass::Parton
    } else if treatment.leptons && (spec_is_light_lepton(id) || spec_is_photon(id)) {
        ParticleClass::Lepton
    } else if treatment.neutrinos || !spec_is_neutrino(id) {
        ParticleClass::Direct
    } else {
        ParticleClass::Dropped
    }
}

/// What becomes of an outgoing particle of the species `id`, see
/// [`class_of`].
pub fn classify(treatment: Treatment, id: i32) -> (r: ParticleClass)
    requires
        id > i32::MIN,
    ensures
        r == class_of(treatment, id),
{
    if !treatment.jets {
        return ParticleClass::Direct;
    }
    let abs = if id < 0 {
        -id
    } else {
        id
    };
    if (1 <= abs && abs <= 5) || id == 21 || is_listed_hadron(abs) {
        ParticleClass::Parton
    } else if treatment.leptons && (abs == 11 || abs == 13 || id == 22) {
        ParticleClass::Lepton
    } else if treatment.neutrinos || !is_neutrino(abs) {
        ParticleClass::Direct
    } else {
        ParticleClass::Dropped
    }
}

/// The outgoing particle number `k` of a record cannot be converted: its
/// identifier or its momentum is missing, its identifier has no absolute
/// value, or the particle is taken over and its momentum is not valid or has
/// no finite coordinates.
pub open spec fn incomplete(treatment: Treatment, input: Seq<InputParticle>, k: int) -> bool {
    &&& 0 <= k < input.len()
    &&& input[k].outgoing
    &&& match (input[k].id, input[k].p) {
        (Some(id), Some(p)) => id == i32::MIN || (class_of(treatment, id) == ParticleClass::Direct
            && !p.has_coordinates()),
        _ => true,
    }
}

/// The particle number `k` of a record is an outgoing particle of the class
/// `class`.
pub open spec fn in_class(treatment: Treatment, input: Seq<InputParticle>, k: int, class: ParticleClass) -> bool {
    input[k].outgoing && input[k].id.is_some() && class_of(treatment, input[k].id.unwrap()) == class
}

/// The momenta of the particles of the class `class` among the first `n`
/// particles of a record, in their order.
pub open spec fn momenta_in_class(treatment: Treatment, input: Seq<InputParticle>, class: ParticleClass, n: int) -> Seq<
    FourVector,
>
    decreases n,
{
    if n <= 0 {
        Seq::empty()
    } else if in_class(treatment, input, n - 1, class) {
        momenta_in_class(treatment, input, class, n - 1).push(input[n - 1].p.unwrap())
    } else {
        momenta_in_class(treatment, input, class, n - 1)
    }
}

/// The particle `made` was made from the particle `input` of a record: it
/// has its species and its momentum, and the coordinates of that momentum.
pub open spec fn made_from(made: (i32, Particle), input: InputParticle) -> bool {
    &&& input.id == Some(made.0)
    &&& input.p == Some(made.1.momentum)
    &&& made.1.of_momentum()
}

/// The particles `made` were made from the particles that are taken over
/// among the first `n` particles of a record, in their order.
pub open spec fn all_made_from(treatment: Treatment, made: Seq<(i32, Particle)>, input: Seq<InputParticle>, n: int) -> bool
    decreases n,
{
    if n <= 0 {
        made.len() == 0
    } else if in_class(treatment, input, n - 1, ParticleClass::Direct) {
        made.len() > 0 && made_from(made.last(), input[n - 1]) && all_made_from(
            treatment,
            made.drop_last(),
            input,
            n - 1,
        )
    } else {
        all_made_from(treatment, made, input, n - 1)
    }
}

/// The particle of the internal format with the species `id` and the
/// momentum `p`, where `k` is the number of the particle in the record.
///
/// It is an error if a particle with the momentum has no coordinates, and
/// only then, see [`FourVector::has_coordinates`].
pub fn convert_particle(id: i32, p: FourVector, k: usize) -> (r: Result<(i32, Particle), ConversionError>)
    ensures
        match r {
            Ok(made) => made.0 == id && made.1.momentum == p && made.1.of_momentum(),
            Err(ConversionError::BadMomentum(i)) => i == k,
            Err(_) => false,
        },
        r.is_ok() == p.has_coordinates(),
{
    let checked = match FourVector::new(p.e, p.px, p.py, p.pz) {
        None => {
            return Err(ConversionError::BadMomentum(k));
        },
        Some(checked) => checked,
    };
    match Particle::new(checked) {
        None => Err(ConversionError::BadMomentum(k)),
        Some(particle) => Ok((id, particle)),
    }
}

/// The outgoing particles of a record, sorted into those that are taken over
/// and those that are to be clustered.
#[derive(Debug)]
pub struct Collected {
    /// The event under construction, with its weights and the particles that
    /// are taken over.
    pub builder: EventBuilder,
    /// The momenta of the particles that are clustered into jets.
    pub partons: Vec<FourVector>,
    /// The momenta of the particles that are clustered into dressed leptons.
    pub leptons: Vec<FourVector>,
}

/// `collected` holds the outgoing particles of the record `event`, sorted by
/// what becomes of them, and the weights `weights`.
pub open spec fn collected_from(treatment: Treatment, event: InputEvent, weights: Seq<Real>, collected: Collected) -> bool {
    let n = event.particles.len() as int;
    &&& collected.builder.wf()
    &&& collected.builder.spec_weights() == weights
    &&& collected.partons@ == momenta_in_class(treatment, event.particles@, ParticleClass::Parton, n)
    &&& collected.leptons@ == momenta_in_class(treatment, event.particles@, ParticleClass::Lepton, n)
    &&& exists|made: Seq<(i32, Particle)>| #[trigger]
        all_made_from(treatment, made, event.particles@, n) && particles(collected.builder.spec_outgoing())
            == made.to_multiset()
}

/// The error `e` names the first outgoing particle of a record that cannot be
/// converted, and says why.
pub open spec fn particles_error(treatment: Treatment, input: Seq<InputParticle>, e: ConversionError) -> bool {
    match e {
        ConversionError::NoId(k) => incomplete(treatment, input, k as int) && input[k as int].id.is_none() && forall|j: int|
            0 <= j < k ==> !incomplete(treatment, input, j),
        ConversionError::BadId(k) => incomplete(treatment, input, k as int) && input[k as int].id == Some(i32::MIN)
            && forall|j: int| 0 <= j < k ==> !incomplete(treatment, input, j),
        ConversionError::NoMomentum(k) => incomplete(treatment, input, k as int) && input[k as int].id.is_some()
            && input[k as int].p.is_none() && forall|j: int| 0 <= j < k ==> !incomplete(treatment, input, j),
        ConversionError::BadMomentum(k) => incomplete(treatment, input, k as int) && in_class(
            treatment,
            input,
            k as int,
            ParticleClass::Direct,
        ) && input[k as int].p.is_some() && !input[k as int].p.unwrap().has_coordinates() && forall|j: int|
            0 <= j < k ==> !incomplete(treatment, input, j),
        _ => false,
    }
}

/// Sort the outgoing particles of a record by what becomes of them, and put
/// those that are taken over into an event under construction with the
/// weights `weights`.
///
/// The first outgoing particle that cannot be converted is an error.
pub fn collect(treatment: Treatment, event: &InputEvent, weights: Vec<Real>) -> (r: Result<Collected, ConversionError>)
    ensures
        match r {
            Ok(collected) => collected_from(treatment, *event, weights@, collected) && forall|k: int|
                !incomplete(treatment, event.particles@, k),
            Err(e) => particles_error(treatment, event.particles@, e),
        },
{
    let mut builder = EventBuilder::new();
    builder.weights(weights);
    let mut partons: Vec<FourVector> = Vec::new();
    let mut leptons: Vec<FourVector> = Vec::new();
    let n = event.particles.len();
    let ghost input = event.particles@;
    let ghost mut made: Seq<(i32, Particle)> = Seq::empty();
    let mut k: usize = 0;
    while k < n
        invariant
            k <= n,
            n == event.particles.len(),
            input == event.particles@,
            builder.wf(),
            builder.spec_weights() == weights@,
            forall|j: int| 0 <= j < k ==> !incomplete(treatment, input, j),
            partons@ == momenta_in_class(treatment, input, ParticleClass::Parton, k as int),
            leptons@ == momenta_in_class(treatment, input, ParticleClass::Lepton, k as int),
            all_made_from(treatment, made, input, k as int),
            particles(builder.spec_outgoing()) == made.to_multiset(),
        decreases n - k,
    {
        if event.particles[k].outgoing {
            let id = match event.particles[k].id {
                None => {
                    return Err(ConversionError::NoId(k));
                },
                Some(id) => id,
            };
            if id == i32::MIN {
                return Err(ConversionError::BadId(k));
            }
            let p = match event.particles[k].p {
                None => {
                    return Err(ConversionError::NoMomentum(k));
                },
                Some(p) => p,
            };
            match classify(treatment, id) {
                ParticleClass::Parton => {
                    partons.push(p);
                },
                ParticleClass::Lepton => {
                    leptons.push(p);
                },
                ParticleClass::Direct => {
                    match convert_particle(id, p, k) {
                        Err(e) => {
                            return Err(e);
                        },
                        Ok((id, particle)) => {
                            builder.add_outgoing(id, particle);
                            proof {
                                let longer = made.push((id, particle));
                                assert(longer.drop_last() =~= made);
                                vstd::seq_lib::to_multiset_build(made, (id, particle));
                                made = longer;
                            }
                        },
                    }
                },
                ParticleClass::Dropped => {},
            }
        }
        k += 1;
    }
    Ok(Collected { builder, partons, leptons })
}

/// The momenta `momenta` become the particles `made` of the species `pid`,
/// each with the coordinates of its momentum.
pub open spec fn clustered_from(made: Seq<(i32, Particle)>, pid: i32, momenta: Seq<FourVector>) -> bool {
    &&& made.len() == momenta.len()
    &&& forall|j: int|
        0 <= j < made.len() ==> (#[trigger] made[j]).0 == pid && made[j].1.momentum == momenta[j] && made[j].1.of_momentum()
}

/// Particles with the first `n` of the momenta `momenta` have coordinates.
pub open spec fn all_have_coordinates(momenta: Seq<FourVector>, n: int) -> bool {
    forall|j: int| 0 <= j < n && j < momenta.len() ==> (#[trigger] momenta[j]).has_coordinates()
}

/// The event `ev` holds the weights and the particles of `collected` and,
/// as jets and as dressed leptons, particles with the momenta `jets` and
/// `dressed`.
pub open spec fn finished_from(collected: Collected, jets: Seq<FourVector>, dressed: Seq<FourVector>, ev: Event) -> bool {
    &&& ev.id == 0
    &&& ev.finite()
    &&& ev.weights@ == collected.builder.spec_weights()
    &&& kinematics_wf(ev.outgoing@)
    &&& exists|made_jets: Seq<(i32, Particle)>, made_leptons: Seq<(i32, Particle)>|
        {
            &&& #[trigger] clustered_from(made_jets, PID_JET, jets)
            &&& #[trigger] clustered_from(made_leptons, PID_DRESSED_LEPTON, dressed)
            &&& particles(ev.outgoing@) == particles(collected.builder.spec_outgoing()).add(
                made_jets.to_multiset(),
            ).add(made_leptons.to_multiset())
        }
}

/// Add particles of the species `pid` with the momenta `momenta` to an event
/// under construction. The first momentum without coordinates is an error,
/// which holds its number. The momenta before it have been added.
pub fn add_clustered(builder: &mut EventBuilder, pid: i32, momenta: &Vec<FourVector>) -> (r: Result<(), usize>)
    requires
        old(builder).wf(),
    ensures
        final(builder).wf(),
        final(builder).spec_weights() == old(builder).spec_weights(),
        match r {
            Ok(()) => all_have_coordinates(momenta@, momenta.len() as int) && exists|made: Seq<(i32, Particle)>| #[trigger]
                clustered_from(made, pid, momenta@) && particles(final(builder).spec_outgoing()) == particles(
                    old(builder).spec_outgoing(),
                ).add(made.to_multiset()),
            Err(k) => k < momenta.len() && !momenta[k as int].has_coordinates() && all_have_coordinates(
                momenta@,
                k as int,
            ),
        },
{
    let ghost mut made: Seq<(i32, Particle)> = Seq::empty();
    let n = momenta.len();
    let mut k: usize = 0;
    proof {
        vstd::seq_lib::to_multiset_len(made);
        vstd::multiset::lemma_multiset_empty_len(made.to_multiset());
        assert(particles(builder.spec_outgoing()).add(made.to_multiset()) =~= particles(builder.spec_outgoing()));
    }
    while k < n
        invariant
            k <= n,
            n == momenta.len(),
            builder.wf(),
            builder.spec_weights() == old(builder).spec_weights(),
            clustered_from(made, pid, momenta@.take(k as int)),
            particles(builder.spec_outgoing()) == particles(old(builder).spec_outgoing()).add(made.to_multiset()),
            all_have_coordinates(momenta@, k as int),
        decreases n - k,
    {
        match convert_particle(pid, momenta[k], k) {
            Err(_) => {
                return Err(k);
            },
            Ok((id, particle)) => {
                let ghost before = particles(builder.spec_outgoing());
                builder.add_outgoing(id, particle);
                proof {
                    let longer = made.push((id, particle));
                    vstd::seq_lib::to_multiset_build(made, (id, particle));
                    assert(before.insert((id, particle)) =~= particles(old(builder).spec_outgoing()).add(
                        longer.to_multiset(),
                    ));
                    assert(momenta@.take(k + 1) =~= momenta@.take(k as int).push(momenta[k as int]));
                    made = longer;
                }
            },
        }
        k += 1;
    }
    proof {
        assert(momenta@.take(n as int) =~= momenta@);
    }
    Ok(())
}

/// Straightforward conversion into internal format
#[derive(Debug)]
pub struct Converter {
    weight_names: Vec<String>,
}

impl Converter {
    /// The names of the additional weights to include in the converted event.
    pub closed spec fn weight_names(&self) -> Seq<String> {
        self.weight_names@
    }

    /// Every outgoing particle is taken over.
    pub open spec fn treatment() -> Treatment {
        Treatment { jets: false, leptons: false, neutrinos: true }
    }

    /// Constructor
    pub fn new() -> (r: Self)
        ensures
            r.weight_names() == Seq::<String>::empty(),
    {
        Converter { weight_names: Vec::new() }
    }

    /// Names of additional weights to include in the converted event
    ///
    /// By default, only the main weight is kept
    pub fn include_weights(self, weight_names: Vec<String>) -> (r: Self)
        ensures
            r.weight_names() == weight_names@,
    {
        Converter { weight_names }
    }

    /// Convert a record into the internal format.
    ///
    /// The weights are those of [`extract_weights`]. The outgoing particles
    /// of the record are the outgoing particles of the event. The first
    /// weight or particle that cannot be converted is an error, see
    /// [`extract_weights`] and [`collect`].
    pub fn try_convert(&mut self, event: InputEvent) -> (r: Result<Event, ConversionError>)
        ensures
            final(self).weight_names() == old(self).weight_names(),
            match r {
                Ok(ev) => {
                    &&& ev.id == 0
                    &&& ev.finite()
                    &&& weights_found(event.weights@, old(self).weight_names())
                    &&& ev.weights@ == extracted(event.weights@, old(self).weight_names())
                    &&& kinematics_wf(ev.outgoing@)
                    &&& forall|k: int| !incomplete(Self::treatment(), event.particles@, k)
                    &&& exists|made: Seq<(i32, Particle)>| #[trigger]
                        all_made_from(Self::treatment(), made, event.particles@, event.particles.len() as int)
                            && particles(ev.outgoing@) == made.to_multiset()
                },
                Err(e) => weights_error(event.weights@, old(self).weight_names(), e) || (weights_found(
                    event.weights@,
                    old(self).weight_names(),
                ) && particles_error(Self::treatment(), event.particles@, e)),
            },
    {
        let weights = match extract_weights(&event, &self.weight_names) {
            Err(e) => {
                return Err(e);
            },
            Ok(weights) => weights,
        };
        let ghost expected = weights@;
        let treatment = Treatment { jets: false, leptons: false, neutrinos: true };
        let collected = match collect(treatment, &event, weights) {
            Err(e) => {
                return Err(e);
            },
            Ok(collected) => collected,
        };
        let ghost outgoing = collected.builder.spec_outgoing();
        proof {
            assert(collected_from(treatment, event, expected, collected));
            assert(collected.builder.spec_weights() == expected);
        }
        let ev = collected.builder.build().unwrap();
        proof {
            let made = choose|made: Seq<(i32, Particle)>| #[trigger]
                all_made_from(treatment, made, event.particles@, event.particles.len() as int) && particles(outgoing)
                    == made.to_multiset();
            assert(all_made_from(Self::treatment(), made, event.particles@, event.particles.len() as int));
            assert(particles(ev.outgoing@) == made.to_multiset());
            assert(ev.weights@ == expected);
        }
        Ok(ev)
    }
}

/// Convert an input event into internal format with jet clustering
#[derive(Debug)]
pub struct ClusteringConverter {
    jet_def: JetDefinition,
    lepton_def: Option<JetDefinition>,
    include_neutrinos: bool,
    weight_names: Vec<String>,
}

impl ClusteringConverter {
    /// The definition of jets.
    pub closed spec fn spec_jet_def(&self) -> JetDefinition {
        self.jet_def
    }

    /// The definition of dressed leptons, if leptons are clustered.
    pub closed spec fn spec_lepton_def(&self) -> Option<JetDefinition> {
        self.lepton_def
    }

    /// Whether neutrinos are kept.
    pub closed spec fn keeps_neutrinos(&self) -> bool {
        self.include_neutrinos
    }

    /// The names of the additional weights to include in the converted event.
    pub closed spec fn weight_names(&self) -> Seq<String> {
        self.weight_names@
    }

    /// The momenta among `dressed` that become dressed leptons: all of them
    /// if there is a definition of dressed leptons, and none without.
    pub open spec fn dressed_taken(&self, dressed: Seq<FourVector>) -> Seq<FourVector> {
        if self.spec_lepton_def().is_some() {
            dressed
        } else {
            Seq::empty()
        }
    }

    /// How outgoing particles are treated.
    pub open spec fn treatment(&self) -> Treatment {
        Treatment { jets: true, leptons: self.spec_lepton_def().is_some(), neutrinos: self.keeps_neutrinos() }
    }

    /// Construct a new converter using the given jet clustering
    pub fn new(jet_def: JetDefinition) -> (r: Self)
        ensures
            r.spec_jet_def() == jet_def,
            r.spec_lepton_def().is_none(),
            !r.keeps_neutrinos(),
            r.weight_names() == Seq::<String>::empty(),
    {
        ClusteringConverter { jet_def, lepton_def: None, include_neutrinos: false, weight_names: Vec::new() }
    }

    /// Enable lepton clustering
    pub fn with_lepton_def(self, lepton_def: JetDefinition) -> (r: Self)
        ensures
            r.spec_jet_def() == self.spec_jet_def(),
            r.spec_lepton_def() == Some(lepton_def),
            r.keeps_neutrinos() == self.keeps_neutrinos(),
            r.weight_names() == self.weight_names(),
    {
        ClusteringConverter { lepton_def: Some(lepton_def), ..self }
    }

    /// Whether to include neutrinos in final event record
    pub fn include_neutrinos(self, keep: bool) -> (r: Self)
        ensures
            r.spec_jet_def() == self.spec_jet_def(),
            r.spec_lepton_def() == self.spec_lepton_def(),
            r.keeps_neutrinos() == keep,
            r.weight_names() == self.weight_names(),
    {
        ClusteringConverter { include_neutrinos: keep, ..self }
    }

    /// Names of additional weights to include in the converted event
    ///
    /// By default, only the main weight is kept
    pub fn include_weights(self, weight_names: Vec<String>) -> (r: Self)
        ensures
            r.spec_jet_def() == self.spec_jet_def(),
            r.spec_lepton_def() == self.spec_lepton_def(),
            r.keeps_neutrinos() == self.keeps_neutrinos(),
            r.weight_names() == weight_names@,
    {
        ClusteringConverter { weight_names, ..self }
    }

    /// The definition of jets.
    pub fn jet_def(&self) -> (r: JetDefinition)
        ensures
            r == self.spec_jet_def(),
    {
        self.jet_def
    }

    /// The definition of dressed leptons, if leptons are clustered.
    pub fn lepton_def(&self) -> (r: Option<JetDefinition>)
        ensures
            r == self.spec_lepton_def(),
    {
        self.lepton_def
    }

    /// The first step of the conversion of a record: its weights, the
    /// particles that are taken over, and the momenta that are to be
    /// clustered into jets and into dressed leptons.
    pub fn begin_convert(&mut self, event: &InputEvent) -> (r: Result<Collected, ConversionError>)
        ensures
            final(self).weight_names() == old(self).weight_names(),
            final(self).treatment() == old(self).treatment(),
            match r {
                Ok(collected) => {
                    &&& weights_found(event.weights@, old(self).weight_names())
                    &&& collected_from(
                        old(self).treatment(),
                        *event,
                        extracted(event.weights@, old(self).weight_names()),
                        collected,
                    )
                    &&& forall|k: int|
                        0 <= k < collected.builder.spec_weights().len() ==> (#[trigger] collected.builder.spec_weights()[k]).is_finite()
                    &&& forall|k: int| !incomplete(old(self).treatment(), event.particles@, k)
                },
                Err(e) => weights_error(event.weights@, old(self).weight_names(), e) || (weights_found(
                    event.weights@,
                    old(self).weight_names(),
                ) && particles_error(old(self).treatment(), event.particles@, e)),
            },
    {
        let weights = match extract_weights(event, &self.weight_names) {
            Err(e) => {
                return Err(e);
            },
            Ok(weights) => weights,
        };
        let treatment = Treatment { jets: true, leptons: self.lepton_def.is_some(), neutrinos: self.include_neutrinos };
        collect(treatment, event, weights)
    }

    /// The last step of the conversion of a record: the jets with the
    /// momenta `jets` and the dressed leptons with the momenta `dressed`
    /// join the particles that were taken over.
    ///
    /// Without a definition of dressed leptons `dressed` is left aside: the
    /// event gets none. The jets are converted first, then the dressed
    /// leptons. The first momentum without coordinates is an error, which
    /// says in which of the two lists it stands, and where; if there is
    /// none, the conversion succeeds.
    pub fn finish_convert(&self, collected: Collected, jets: &Vec<FourVector>, dressed: &Vec<FourVector>) -> (r: Result<
        Event,
        ConversionError,
    >)
        requires
            collected.builder.wf(),
            collected.builder.spec_weights().len() > 0,
            forall|k: int| 0 <= k < collected.builder.spec_weights().len() ==> (#[trigger] collected.builder.spec_weights()[k]).is_finite(),
        ensures
            match r {
                Ok(ev) => {
                    &&& finished_from(collected, jets@, self.dressed_taken(dressed@), ev)
                    &&& all_have_coordinates(jets@, jets.len() as int)
                    &&& all_have_coordinates(self.dressed_taken(dressed@), dressed.len() as int)
                },
                Err(ConversionError::BadJet(k)) => {
                    &&& k < jets.len()
                    &&& !jets[k as int].has_coordinates()
                    &&& all_have_coordinates(jets@, k as int)
                },
                Err(ConversionError::BadDressedLepton(k)) => {
                    &&& all_have_coordinates(jets@, jets.len() as int)
                    &&& k < self.dressed_taken(dressed@).len()
                    &&& !dressed[k as int].has_coordinates()
                    &&& all_have_coordinates(dressed@, k as int)
                },
                Err(_) => false,
            },
    {
        let mut builder = collected.builder;
        let ghost start = particles(builder.spec_outgoing());
        match add_clustered(&mut builder, PID_JET, jets) {
            Err(k) => {
                return Err(ConversionError::BadJet(k));
            },
            Ok(()) => {},
        }
        let ghost middle = particles(builder.spec_outgoing());
        if self.lepton_def.is_some() {
            match add_clustered(&mut builder, PID_DRESSED_LEPTON, dressed) {
                Err(k) => {
                    return Err(ConversionError::BadDressedLepton(k));
                },
                Ok(()) => {},
            }
        }
        let ghost end = particles(builder.spec_outgoing());
        let ev = builder.build().unwrap();
        proof {
            let taken = self.dressed_taken(dressed@);
            let made_jets = choose|made: Seq<(i32, Particle)>| #[trigger]
                clustered_from(made, PID_JET, jets@) && middle == start.add(made.to_multiset());
            let made_leptons = if self.lepton_def.is_some() {
                choose|made: Seq<(i32, Particle)>| #[trigger]
                    clustered_from(made, PID_DRESSED_LEPTON, dressed@) && end == middle.add(made.to_multiset())
            } else {
                Seq::<(i32, Particle)>::empty()
            };
            if self.lepton_def.is_none() {
                vstd::seq_lib::to_multiset_len(made_leptons);
                vstd::multiset::lemma_multiset_empty_len(made_leptons.to_multiset());
                assert(middle.add(made_leptons.to_multiset()) =~= middle);
            }
            assert(clustered_from(made_jets, PID_JET, jets@));
            assert(clustered_from(made_leptons, PID_DRESSED_LEPTON, taken));
            assert(particles(ev.outgoing@) == start.add(made_jets.to_multiset()).add(made_leptons.to_multiset()));
        }
        Ok(ev)
    }
}

/// Each of the particles `made`, which were made from the particles that are
/// taken over among the first `n` particles of a record, was made from one of
/// them.
pub proof fn lemma_made_from_one(
    treatment: Treatment,
    made: Seq<(i32, Particle)>,
    input: Seq<InputParticle>,
    n: int,
    x: (i32, Particle),
)
    requires
        all_made_from(treatment, made, input, n),
        made.contains(x),
    ensures
        exists|k: int| 0 <= k < n && #[trigger] in_class(treatment, input, k, ParticleClass::Direct) && made_from(x, input[k]),
    decreases n,
{
    if n > 0 {
        if in_class(treatment, input, n - 1, ParticleClass::Direct) {
            if x == made.last() {
                assert(in_class(treatment, input, n - 1, ParticleClass::Direct) && made_from(x, input[n - 1]));
            } else {
                let i = choose|i: int| 0 <= i < made.len() && made[i] == x;
                assert(made.drop_last()[i] == x);
                lemma_made_from_one(treatment, made.drop_last(), input, n - 1, x);
            }
        } else {
            lemma_made_from_one(treatment, made, input, n - 1, x);
        }
    }
}

/// What a converted event holds: the weights that were taken from the
/// record, and no particle but jets with the momenta `jets`, dressed leptons
/// with the momenta `dressed`, and the outgoing particles of the record that
/// are taken over, each with its species and its momentum. Every particle
/// has the coordinates of its momentum. A particle of the record that is not
/// outgoing, that is clustered or that is dropped leaves no particle of its
/// own: with jet clustering, a species other than jets and dressed leptons
/// is no parton and no hadron, no light lepton and no photon where leptons
/// are clustered, and no neutrino unless neutrinos are kept.
pub proof fn lemma_converted_particles(
    treatment: Treatment,
    event: InputEvent,
    weights: Seq<Real>,
    collected: Collected,
    jets: Seq<FourVector>,
    dressed: Seq<FourVector>,
    ev: Event,
    pid: i32,
    p: Particle,
)
    requires
        collected_from(treatment, event, weights, collected),
        finished_from(collected, jets, dressed, ev),
        particles(ev.outgoing@).count((pid, p)) > 0,
    ensures
        ev.id == 0,
        ev.weights@ == weights,
        p.of_momentum(),
        (pid == PID_JET && jets.contains(p.momentum)) || (pid == PID_DRESSED_LEPTON && dressed.contains(p.momentum)) || (
        exists|k: int|
            0 <= k < event.particles.len() && #[trigger] in_class(
                treatment,
                event.particles@,
                k,
                ParticleClass::Direct,
            ) && event.particles[k].id == Some(pid) && event.particles[k].p == Some(p.momentum)),
        treatment.jets && pid != PID_JET && pid != PID_DRESSED_LEPTON ==> {
            &&& !spec_is_parton(pid) && !listed_hadron(abs_id(pid) as i32)
            &&& treatment.leptons ==> !spec_is_light_lepton(pid) && !spec_is_photon(pid)
            &&& !treatment.neutrinos ==> !spec_is_neutrino(pid)
        },
{
    let n = event.particles.len() as int;
    let (made_jets, made_leptons) = choose|made_jets: Seq<(i32, Particle)>, made_leptons: Seq<(i32, Particle)>|
        {
            &&& #[trigger] clustered_from(made_jets, PID_JET, jets)
            &&& #[trigger] clustered_from(made_leptons, PID_DRESSED_LEPTON, dressed)
            &&& particles(ev.outgoing@) == particles(collected.builder.spec_outgoing()).add(
                made_jets.to_multiset(),
            ).add(made_leptons.to_multiset())
        };
    let made = choose|made: Seq<(i32, Particle)>| #[trigger]
        all_made_from(treatment, made, event.particles@, n) && particles(collected.builder.spec_outgoing())
            == made.to_multiset();
    vstd::seq_lib::to_multiset_contains(made_jets, (pid, p));
    vstd::seq_lib::to_multiset_contains(made_leptons, (pid, p));
    vstd::seq_lib::to_multiset_contains(made, (pid, p));
    if made_jets.contains((pid, p)) {
        let j = choose|j: int| 0 <= j < made_jets.len() && made_jets[j] == (pid, p);
        assert(jets[j] == p.momentum);
    } else if made_leptons.contains((pid, p)) {
        let j = choose|j: int| 0 <= j < made_leptons.len() && made_leptons[j] == (pid, p);
        assert(dressed[j] == p.momentum);
    } else {
        assert(made.contains((pid, p)));
        lemma_made_from_one(treatment, made, event.particles@, n, (pid, p));
    }
}

/// Without the clustering of leptons no particle of a record is set aside
/// for it.
pub proof fn lemma_no_leptons_without_definition(treatment: Treatment, input: Seq<InputParticle>, n: int)
    requires
        !treatment.leptons,
    ensures
        momenta_in_class(treatment, input, ParticleClass::Lepton, n) == Seq::<FourVector>::empty(),
    decreases n,
{
    if n > 0 {
        lemma_no_leptons_without_definition(treatment, input, n - 1);
    }
}

/// What an event holds that was converted with jet clustering, see
/// [`lemma_converted_particles`]. Dressed leptons are made only with a
/// definition of dressed leptons; without one, no lepton and no photon of
/// the record is set aside, and `dressed` is left aside.
pub proof fn lemma_clustered_particles(
    converter: ClusteringConverter,
    event: InputEvent,
    weights: Seq<Real>,
    collected: Collected,
    jets: Seq<FourVector>,
    dressed: Seq<FourVector>,
    ev: Event,
    pid: i32,
    p: Particle,
)
    requires
        collected_from(converter.treatment(), event, weights, collected),
        finished_from(collected, jets, converter.dressed_taken(dressed), ev),
        particles(ev.outgoing@).count((pid, p)) > 0,
    ensures
        converter.spec_lepton_def().is_none() ==> collected.leptons@ == Seq::<FourVector>::empty(),
        (pid == PID_JET && jets.contains(p.momentum)) || (pid == PID_DRESSED_LEPTON && converter.spec_lepton_def().is_some()
            && dressed.contains(p.momentum)) || (exists|k: int|
            0 <= k < event.particles.len() && #[trigger] in_class(
                converter.treatment(),
                event.particles@,
                k,
                ParticleClass::Direct,
            ) && event.particles[k].id == Some(pid) && event.particles[k].p == Some(p.momentum)),
{
    lemma_converted_particles(
        converter.treatment(),
        event,
        weights,
        collected,
        jets,
        converter.dressed_taken(dressed),
        ev,
        pid,
        p,
    );
    if converter.spec_lepton_def().is_none() {
        lemma_no_leptons_without_definition(converter.treatment(), event.particles@, event.particles.len() as int);
    }
}

} // verus!
