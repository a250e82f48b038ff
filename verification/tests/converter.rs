use cres::converter::{
    add_clustered, classify, collect, convert_particle, extract_weights, ClusteringConverter, ConversionError,
    Converter, InputEvent, InputParticle, JetAlgorithm, JetDefinition, ParticleClass, Treatment, WeightInfo,
    PID_DRESSED_LEPTON, PID_JET,
};
use cres::event::{EventBuilder, FourVector};
use cres::number::Real;

fn num(x: f64) -> Real {
    Real::from_bits(x.to_bits()).unwrap()
}

fn value(x: Real) -> f64 {
    f64::from_bits(x.to_bits())
}

fn values(v: &[Real]) -> Vec<f64> {
    v.iter().map(|&x| value(x)).collect()
}

fn weight(w: f64, name: Option<&str>) -> WeightInfo {
    WeightInfo { weight: Real::from_bits(w.to_bits()), name: name.map(|n| n.to_string()) }
}

fn momentum(pt: f64) -> FourVector {
    FourVector { e: num(pt), px: num(pt), py: num(0.), pz: num(0.) }
}

fn outgoing(id: i32, pt: f64) -> InputParticle {
    InputParticle { id: Some(id), p: Some(momentum(pt)), outgoing: true }
}

fn incoming(id: i32) -> InputParticle {
    InputParticle { id: Some(id), p: Some(FourVector { e: num(1.), px: num(0.), py: num(0.), pz: num(1.) }), outgoing: false }
}

fn names(v: &[&str]) -> Vec<String> {
    v.iter().map(|s| s.to_string()).collect()
}

fn record(weights: Vec<WeightInfo>, particles: Vec<InputParticle>) -> InputEvent {
    InputEvent { weights, particles }
}

#[test]
fn central_weight_comes_first() {
    let ev = record(vec![weight(2., Some("central")), weight(3., Some("up")), weight(4., None)], vec![]);
    assert_eq!(values(&extract_weights(&ev, &vec![]).unwrap()), vec![2.]);
    assert_eq!(values(&extract_weights(&ev, &names(&["up"])).unwrap()), vec![2., 3.]);
    // a named central weight is taken a second time if its name is asked for
    assert_eq!(values(&extract_weights(&ev, &names(&["up", "central"])).unwrap()), vec![2., 2., 3.]);
}

#[test]
fn weights_come_in_the_order_of_the_record() {
    let ev = record(
        vec![weight(1., None), weight(5., Some("b")), weight(6., Some("a")), weight(7., Some("b")), weight(8., Some("c"))],
        vec![],
    );
    assert_eq!(values(&extract_weights(&ev, &names(&["a", "b"])).unwrap()), vec![1., 5., 6., 7.]);
}

#[test]
fn missing_weight_is_reported_with_all_names() {
    let ev = record(vec![weight(1., None), weight(5., Some("b")), weight(6., Some("a"))], vec![]);
    match extract_weights(&ev, &names(&["a", "x", "b", "y"])) {
        Err(ConversionError::WeightNotFound(name, all)) => {
            assert_eq!(name, "x");
            assert_eq!(all, names(&["b", "a"]));
        },
        other => panic!("{other:?}"),
    }
}

#[test]
fn record_needs_a_usable_central_weight() {
    assert!(matches!(extract_weights(&record(vec![], vec![]), &vec![]), Err(ConversionError::NoWeight)));
    let none = WeightInfo { weight: None, name: Some("w".to_string()) };
    assert!(matches!(extract_weights(&record(vec![none], vec![]), &vec![]), Err(ConversionError::NoWeight)));
    let ev = record(vec![weight(f64::INFINITY, None)], vec![]);
    assert!(matches!(extract_weights(&ev, &vec![]), Err(ConversionError::BadWeight(0))));
    let nan = record(vec![weight(f64::NAN, None)], vec![]);
    assert!(matches!(extract_weights(&nan, &vec![]), Err(ConversionError::NoWeight)));
}

#[test]
fn first_unusable_weight_is_reported() {
    let ev = record(
        vec![weight(1., None), weight(f64::INFINITY, Some("skipped")), weight(f64::NAN, Some("a")), weight(f64::INFINITY, Some("a"))],
        vec![],
    );
    assert!(matches!(extract_weights(&ev, &names(&["a", "missing"])), Err(ConversionError::BadWeight(2))));
    assert_eq!(values(&extract_weights(&ev, &vec![]).unwrap()), vec![1.]);
}

#[test]
fn outgoing_particles_are_taken_over() {
    let ev = record(
        vec![weight(0.5, None)],
        vec![incoming(2), outgoing(21, 3.), outgoing(12, 4.), incoming(-2), outgoing(21, 7.), outgoing(-11, 1.)],
    );
    let converted = Converter::new().try_convert(ev).unwrap();
    assert_eq!(converted.id(), 0);
    assert_eq!(values(&converted.weights), vec![0.5]);
    let content: Vec<(i32, Vec<f64>)> =
        converted.outgoing.iter().map(|s| (s.pid, s.particles.iter().map(|p| value(p.pt)).collect())).collect();
    assert_eq!(content, vec![(-11, vec![1.]), (12, vec![4.]), (21, vec![7., 3.])]);
    assert_eq!(values(&[converted.outgoing[2].particles[0].momentum.e]), vec![7.]);
}

#[test]
fn converter_keeps_the_weights_that_are_asked_for() {
    let ev = record(vec![weight(0.5, None), weight(2., Some("up")), weight(3., Some("down"))], vec![outgoing(21, 3.)]);
    let converted = Converter::new().include_weights(names(&["down"])).try_convert(ev).unwrap();
    assert_eq!(values(&converted.weights), vec![0.5, 3.]);
    let ev = record(vec![weight(0.5, None)], vec![outgoing(21, 3.)]);
    assert!(matches!(
        Converter::new().include_weights(names(&["down"])).try_convert(ev),
        Err(ConversionError::WeightNotFound(_, _))
    ));
}

#[test]
fn first_particle_that_cannot_be_converted_is_reported() {
    let weights = || vec![weight(1., None)];
    let no_id = InputParticle { id: None, p: Some(momentum(1.)), outgoing: true };
    let no_p = InputParticle { id: Some(21), p: None, outgoing: true };
    let bad_id = InputParticle { id: Some(i32::MIN), p: Some(momentum(1.)), outgoing: true };
    let along_beam = InputParticle {
        id: Some(21),
        p: Some(FourVector { e: num(1.), px: num(0.), py: num(0.), pz: num(1.) }),
        outgoing: true,
    };
    let negative_energy = InputParticle {
        id: Some(21),
        p: Some(FourVector { e: num(-1.), px: num(1.), py: num(0.), pz: num(0.) }),
        outgoing: true,
    };
    let convert = |particles| Converter::new().try_convert(record(weights(), particles));
    assert!(matches!(convert(vec![outgoing(21, 1.), no_id, no_p]), Err(ConversionError::NoId(1))));
    let no_id = InputParticle { id: None, p: None, outgoing: true };
    assert!(matches!(convert(vec![incoming(1), incoming(1), no_id]), Err(ConversionError::NoId(2))));
    let no_p = || InputParticle { id: Some(21), p: None, outgoing: true };
    assert!(matches!(convert(vec![no_p()]), Err(ConversionError::NoMomentum(0))));
    assert!(matches!(convert(vec![bad_id]), Err(ConversionError::BadId(0))));
    assert!(matches!(convert(vec![outgoing(1, 1.), along_beam]), Err(ConversionError::BadMomentum(1))));
    assert!(matches!(convert(vec![negative_energy]), Err(ConversionError::BadMomentum(0))));
    // particles that are not outgoing are not looked at
    let ignored = InputParticle { id: None, p: None, outgoing: false };
    assert!(convert(vec![ignored, outgoing(21, 1.)]).is_ok());
    // the weights are looked at first
    assert!(matches!(
        Converter::new().try_convert(record(vec![], vec![no_p()])),
        Err(ConversionError::NoWeight)
    ));
}

#[test]
fn particles_are_sorted_into_classes() {
    let plain = Treatment { jets: true, leptons: false, neutrinos: false };
    let dressing = Treatment { jets: true, leptons: true, neutrinos: false };
    let keeping = Treatment { jets: true, leptons: false, neutrinos: true };
    for quark in [1, -1, 2, 3, 4, 5, -5, 21] {
        assert_eq!(classify(plain, quark), ParticleClass::Parton);
    }
    for hadron in [211, -211, 111, 2212, -2212, 2112, 321, 130] {
        assert_eq!(classify(plain, hadron), ParticleClass::Parton, "{hadron}");
    }
    for other in [6, -6, 11, -11, 13, 15, 22, 23, 24, -24, 25, -21, 0] {
        assert_eq!(classify(plain, other), ParticleClass::Direct, "{other}");
    }
    for neutrino in [12, -12, 14, -14, 16, -16, 18] {
        assert_eq!(classify(plain, neutrino), ParticleClass::Dropped);
        assert_eq!(classify(dressing, neutrino), ParticleClass::Dropped);
        assert_eq!(classify(keeping, neutrino), ParticleClass::Direct);
    }
    for lepton in [11, -11, 13, -13, 22] {
        assert_eq!(classify(dressing, lepton), ParticleClass::Lepton);
    }
    for other in [15, -15, -22, 23] {
        assert_eq!(classify(dressing, other), ParticleClass::Direct);
    }
    let all = Treatment { jets: false, leptons: true, neutrinos: false };
    for id in [1, 21, 211, 11, 12, 22] {
        assert_eq!(classify(all, id), ParticleClass::Direct);
    }
}

fn jet_def() -> JetDefinition {
    JetDefinition { algorithm: JetAlgorithm::AntiKt, radius: num(0.4), min_pt: num(30.) }
}

#[test]
fn clustering_converter_sorts_the_particles() {
    let ev = record(
        vec![weight(1.5, None)],
        vec![
            incoming(21),
            outgoing(21, 50.),
            outgoing(11, 20.),
            outgoing(2, 40.),
            outgoing(12, 25.),
            outgoing(22, 5.),
            outgoing(23, 90.),
            outgoing(-211, 3.),
        ],
    );
    let mut converter = ClusteringConverter::new(jet_def());
    let collected = converter.begin_convert(&ev).unwrap();
    let pts = |v: &[FourVector]| -> Vec<f64> { v.iter().map(|p| value(p.px)).collect() };
    assert_eq!(pts(&collected.partons), vec![50., 40., 3.]);
    assert!(collected.leptons.is_empty());
    let jets = vec![momentum(90.)];
    let event = converter.finish_convert(collected, &jets, &vec![]).unwrap();
    let content: Vec<(i32, Vec<f64>)> =
        event.outgoing.iter().map(|s| (s.pid, s.particles.iter().map(|p| value(p.pt)).collect())).collect();
    assert_eq!(content, vec![(11, vec![20.]), (22, vec![5.]), (23, vec![90.]), (PID_JET, vec![90.])]);
    assert_eq!(values(&event.weights), vec![1.5]);

    let mut converter = ClusteringConverter::new(jet_def()).with_lepton_def(jet_def()).include_neutrinos(true);
    assert!(converter.lepton_def().is_some());
    assert_eq!(value(converter.jet_def().radius), 0.4);
    let collected = converter.begin_convert(&ev).unwrap();
    assert_eq!(pts(&collected.partons), vec![50., 40., 3.]);
    assert_eq!(pts(&collected.leptons), vec![20., 5.]);
    let event = converter.finish_convert(collected, &vec![momentum(45.), momentum(52.)], &vec![momentum(25.)]).unwrap();
    let content: Vec<(i32, Vec<f64>)> =
        event.outgoing.iter().map(|s| (s.pid, s.particles.iter().map(|p| value(p.pt)).collect())).collect();
    assert_eq!(
        content,
        vec![(12, vec![25.]), (23, vec![90.]), (PID_JET, vec![52., 45.]), (PID_DRESSED_LEPTON, vec![25.])]
    );
}

#[test]
fn clustering_converter_reports_errors() {
    let mut converter = ClusteringConverter::new(jet_def()).include_weights(names(&["up"]));
    let ev = record(vec![weight(1.5, None)], vec![outgoing(21, 50.)]);
    assert!(matches!(converter.begin_convert(&ev), Err(ConversionError::WeightNotFound(_, _))));
    let mut converter = ClusteringConverter::new(jet_def());
    // partons need no coordinates
    let parton = InputParticle {
        id: Some(21),
        p: Some(FourVector { e: num(1.), px: num(0.), py: num(0.), pz: num(1.) }),
        outgoing: true,
    };
    let photon = InputParticle {
        id: Some(22),
        p: Some(FourVector { e: num(1.), px: num(0.), py: num(0.), pz: num(1.) }),
        outgoing: true,
    };
    let ev = record(vec![weight(1.5, None)], vec![parton, photon]);
    assert!(matches!(converter.begin_convert(&ev), Err(ConversionError::BadMomentum(1))));
    let ev = record(vec![weight(1.5, None)], vec![outgoing(21, 50.)]);
    let collected = converter.begin_convert(&ev).unwrap();
    let beam = FourVector { e: num(1.), px: num(0.), py: num(0.), pz: num(1.) };
    assert!(matches!(
        converter.finish_convert(collected, &vec![momentum(1.), beam], &vec![]),
        Err(ConversionError::BadJet(1))
    ));
}

#[test]
fn last_step_names_the_list_of_the_first_bad_momentum() {
    let mut converter = ClusteringConverter::new(jet_def()).with_lepton_def(jet_def());
    let ev = record(vec![weight(1.5, None)], vec![outgoing(21, 50.)]);
    let beam = FourVector { e: num(1.), px: num(0.), py: num(0.), pz: num(1.) };
    let negative = FourVector { e: num(-1.), px: num(0.5), py: num(0.), pz: num(0.) };
    let wide = FourVector { e: num(1e308), px: num(1e308), py: num(1e308), pz: num(0.) };

    let collected = converter.begin_convert(&ev).unwrap();
    assert!(matches!(
        converter.finish_convert(collected, &vec![momentum(1.), momentum(2.)], &vec![momentum(3.), momentum(4.), beam]),
        Err(ConversionError::BadDressedLepton(2))
    ));
    let collected = converter.begin_convert(&ev).unwrap();
    assert!(matches!(
        converter.finish_convert(collected, &vec![negative, beam], &vec![beam]),
        Err(ConversionError::BadJet(0))
    ));
    let collected = converter.begin_convert(&ev).unwrap();
    assert!(matches!(
        converter.finish_convert(collected, &vec![], &vec![wide]),
        Err(ConversionError::BadDressedLepton(0))
    ));
}

#[test]
fn last_step_without_jets_and_leptons_succeeds() {
    let mut converter = ClusteringConverter::new(jet_def());
    let ev = record(vec![weight(1.5, None)], vec![]);
    let collected = converter.begin_convert(&ev).unwrap();
    let event = converter.finish_convert(collected, &vec![], &vec![]).unwrap();
    assert_eq!(event.id, 0);
    assert_eq!(values(&event.weights), vec![1.5]);
    assert!(event.outgoing.is_empty());

    // a neutrino is dropped, and a parton below the jet threshold leaves no jet
    let ev = record(vec![weight(-2., None)], vec![outgoing(12, 3.), outgoing(21, 1.), incoming(2212)]);
    let collected = converter.begin_convert(&ev).unwrap();
    assert_eq!(collected.partons.len(), 1);
    let event = converter.finish_convert(collected, &vec![], &vec![]).unwrap();
    assert_eq!(values(&event.weights), vec![-2.]);
    assert!(event.outgoing.is_empty());
}

#[test]
fn pieces_of_the_conversion() {
    let (id, particle) = convert_particle(21, momentum(3.), 5).unwrap();
    assert_eq!((id, value(particle.pt)), (21, 3.));
    let beam = FourVector { e: num(1.), px: num(0.), py: num(0.), pz: num(-1.) };
    assert!(matches!(convert_particle(21, beam, 5), Err(ConversionError::BadMomentum(5))));
    let ev = record(vec![weight(1., None)], vec![outgoing(21, 1.), outgoing(13, 2.)]);
    let treatment = Treatment { jets: true, leptons: true, neutrinos: false };
    let collected = collect(treatment, &ev, vec![num(1.)]).unwrap();
    assert_eq!(collected.partons.len(), 1);
    assert_eq!(collected.leptons.len(), 1);
    let mut builder = EventBuilder::new();
    builder.weights(vec![num(1.)]);
    add_clustered(&mut builder, PID_JET, &vec![momentum(4.), momentum(6.)]).unwrap();
    assert_eq!(add_clustered(&mut builder, PID_DRESSED_LEPTON, &vec![momentum(4.), beam, beam]), Err(1));
    let event = builder.build().unwrap();
    assert_eq!(event.outgoing.len(), 2);
    assert_eq!(event.outgoing[1].pid, 82);
    assert_eq!(event.outgoing[1].particles.len(), 1);
    let mut builder = EventBuilder::new();
    builder.weights(vec![num(1.)]);
    add_clustered(&mut builder, PID_JET, &vec![momentum(4.), momentum(6.)]).unwrap();
    assert_eq!(add_clustered(&mut builder, PID_JET, &vec![]), Ok(()));
    let event = builder.build().unwrap();
    assert_eq!(event.outgoing.len(), 1);
    assert_eq!(event.outgoing[0].pid, 81);
    assert_eq!(event.outgoing[0].particles.len(), 2);
    assert_eq!(PID_DRESSED_LEPTON, 82);
}

#[test]
fn converted_particles_have_the_coordinates_of_their_momenta() {
    let p = FourVector { e: num(5.), px: num(-3.), py: num(1.), pz: num(4.) };
    let (id, made) = convert_particle(-13, p, 0).unwrap();
    assert_eq!(id, -13);
    assert!((value(made.rapidity) - 0.5 * 9f64.ln()).abs() < 1e-15);
    assert!((value(made.azimuth) - 1f64.atan2(-3.)).abs() < 1e-15);
    assert_eq!(value(made.pt), 10f64.sqrt());
    assert_eq!(value(made.momentum.pz), 4.);

    let mut converter = ClusteringConverter::new(jet_def());
    let ev = record(vec![weight(1., None)], vec![InputParticle { id: Some(23), p: Some(p), outgoing: true }]);
    let collected = converter.begin_convert(&ev).unwrap();
    let jet = FourVector { e: num(5.), px: num(0.), py: num(-3.), pz: num(-4.) };
    let event = converter.finish_convert(collected, &vec![jet], &vec![]).unwrap();
    assert_eq!(event.outgoing.len(), 2);
    let boson = event.outgoing[0].particles[0];
    assert_eq!(event.outgoing[0].pid, 23);
    assert_eq!(boson.rapidity.to_bits(), made.rapidity.to_bits());
    assert_eq!(boson.azimuth.to_bits(), made.azimuth.to_bits());
    let jet = event.outgoing[1].particles[0];
    assert_eq!(event.outgoing[1].pid, PID_JET);
    assert!((value(jet.rapidity) + 0.5 * 9f64.ln()).abs() < 1e-15);
    assert!((value(jet.azimuth) + std::f64::consts::FRAC_PI_2).abs() < 1e-15);
    assert_eq!(value(jet.pt), 3.);
}

#[test]
fn dressed_leptons_need_their_definition() {
    let beam = FourVector { e: num(1.), px: num(0.), py: num(0.), pz: num(1.) };
    let ev = record(vec![weight(1.5, None)], vec![outgoing(21, 50.), outgoing(11, 20.), outgoing(22, 5.)]);

    let mut converter = ClusteringConverter::new(jet_def());
    let collected = converter.begin_convert(&ev).unwrap();
    assert!(collected.leptons.is_empty());
    let event = converter.finish_convert(collected, &vec![momentum(50.)], &vec![momentum(25.), beam]).unwrap();
    let species: Vec<i32> = event.outgoing.iter().map(|s| s.pid).collect();
    assert_eq!(species, vec![11, 22, PID_JET]);

    let mut converter = ClusteringConverter::new(jet_def()).with_lepton_def(jet_def());
    let collected = converter.begin_convert(&ev).unwrap();
    assert_eq!(collected.leptons.len(), 2);
    let event = converter.finish_convert(collected, &vec![momentum(50.)], &vec![momentum(25.)]).unwrap();
    let species: Vec<i32> = event.outgoing.iter().map(|s| s.pid).collect();
    assert_eq!(species, vec![PID_JET, PID_DRESSED_LEPTON]);
    let collected = converter.begin_convert(&ev).unwrap();
    assert!(matches!(
        converter.finish_convert(collected, &vec![momentum(50.)], &vec![momentum(25.), beam]),
        Err(ConversionError::BadDressedLepton(1))
    ));
}

#[test]
fn momenta_with_coordinates_convert() {
    let steps: [f64; 8] = [5e-324, 1e-300, 1e-8, 0.5, 1., 3., 1e8, 1e150];
    let along: [f64; 5] = [0., 0.25, -0.75, 1e3, -1e-3];
    let across: [(f64, f64); 6] = [(1., 0.), (0., 1.), (-1., 0.), (0., -1.), (0.6, 0.8), (-0.6, -0.8)];
    for &pt in &steps {
        for &pz in &along {
            for &(sx, sy) in &across {
                let (px, py, pz): (f64, f64, f64) = (sx * pt, sy * pt, pz * pt);
                let e: f64 = (px * px + py * py + pz * pz).sqrt().max(pz.abs());
                let p = FourVector { e: num(e), px: num(px), py: num(py), pz: num(pz) };
                let expected = e + pz > 0. && e - pz > 0. && (px * px + py * py).sqrt().is_finite();
                assert_eq!(convert_particle(21, p, 3).is_ok(), expected);
                if !expected {
                    assert!(matches!(convert_particle(21, p, 3), Err(ConversionError::BadMomentum(3))));
                }
            }
        }
    }
}
