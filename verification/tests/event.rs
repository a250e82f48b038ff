use cres::distance::{Distance, EuclWithScaledPt};
use cres::event::{all_finite, Event, EventBuilder, FourVector, Particle};
use cres::number::Real;

fn num(x: f64) -> Real {
    Real::from_bits(x.to_bits()).unwrap()
}

fn value(x: Real) -> f64 {
    f64::from_bits(x.to_bits())
}

/// A massless particle with the given transverse momentum, azimuth and
/// rapidity.
fn particle(pt: f64, phi: f64, y: f64) -> Particle {
    let p = FourVector::new(num(pt * y.cosh()), num(pt * phi.cos()), num(pt * phi.sin()), num(pt * y.sinh())).unwrap();
    Particle::new(p).unwrap()
}

fn event(particles: &[(i32, Particle)]) -> Event {
    let mut builder = EventBuilder::new();
    builder.weights(vec![num(1.)]);
    for &(pid, p) in particles {
        builder.add_outgoing(pid, p);
    }
    builder.build().unwrap()
}

#[test]
fn momenta_must_be_finite_with_energy_not_negative() {
    assert!(FourVector::new(num(1.), num(1.), num(0.), num(0.)).is_some());
    assert!(FourVector::new(num(0.), num(0.), num(0.), num(0.)).is_some());
    assert!(FourVector::new(num(-1.), num(1.), num(0.), num(0.)).is_none());
    assert!(FourVector::new(num(f64::INFINITY), num(1.), num(0.), num(0.)).is_none());
    assert!(FourVector::new(num(1.), num(f64::NEG_INFINITY), num(0.), num(0.)).is_none());
    assert!(FourVector::new(num(1.), num(0.), num(f64::INFINITY), num(0.)).is_none());
    assert!(FourVector::new(num(1.), num(0.), num(0.), num(f64::INFINITY)).is_none());
}

#[test]
fn coordinates_of_a_particle() {
    let p = FourVector::new(num(5.), num(3.), num(4.), num(0.)).unwrap();
    assert_eq!(value(p.pt()), 5.);
    assert_eq!(value(p.rapidity_argument().unwrap()), 1.);
    let particle = Particle::new(p).unwrap();
    assert_eq!(value(particle.pt), 5.);
    assert_eq!(value(particle.rapidity), 0.);
    assert_eq!(value(particle.azimuth), 4f64.atan2(3.));
    let p = FourVector::new(num(5.), num(0.), num(-4.), num(3.)).unwrap();
    let particle = Particle::new(p).unwrap();
    assert_eq!(value(particle.pt), 4.);
    assert!((value(particle.rapidity) - 0.5 * 4f64.ln()).abs() < 1e-15);
    assert!((value(particle.azimuth) + std::f64::consts::FRAC_PI_2).abs() < 1e-15);
}

#[test]
fn particle_along_the_beam_has_no_rapidity() {
    for pz in [1., -1.] {
        let p = FourVector::new(num(1.), num(0.), num(0.), num(pz)).unwrap();
        assert!(p.rapidity_argument().is_none());
        assert!(Particle::new(p).is_none());
    }
    let spacelike = FourVector::new(num(1.), num(0.), num(0.), num(2.)).unwrap();
    assert!(Particle::new(spacelike).is_none());
    let at_rest = FourVector::new(num(0.), num(0.), num(0.), num(0.)).unwrap();
    assert!(Particle::new(at_rest).is_none());
}

#[test]
fn coordinates_must_be_in_range() {
    let p = FourVector::new(num(1.), num(1.), num(0.), num(0.)).unwrap();
    assert!(Particle::from_coordinates(p, num(0.), num(3.), num(1.)).is_some());
    assert!(Particle::from_coordinates(p, num(0.), num(-std::f64::consts::PI), num(1.)).is_some());
    assert!(Particle::from_coordinates(p, num(0.), num(3.2), num(1.)).is_none());
    assert!(Particle::from_coordinates(p, num(f64::INFINITY), num(0.), num(1.)).is_none());
    assert!(Particle::from_coordinates(p, num(0.), num(0.), num(-1.)).is_none());
    assert!(Particle::from_coordinates(p, num(0.), num(0.), num(f64::INFINITY)).is_none());
}

#[test]
fn particles_are_kept_in_order() {
    let mut builder = EventBuilder::new();
    builder.weights(vec![num(1.)]);
    assert_eq!(builder.add_outgoing(21, particle(2., 0., 0.)), (0, 0));
    assert_eq!(builder.add_outgoing(21, particle(5., 0., 0.)), (0, 0));
    assert_eq!(builder.add_outgoing(-11, particle(1., 0., 0.)), (0, 0));
    assert_eq!(builder.add_outgoing(21, particle(3., 0., 0.)), (1, 1));
    assert_eq!(builder.add_outgoing(21, particle(3., 1., 0.)), (1, 2));
    assert_eq!(builder.add_outgoing(21, particle(1., 0., 0.)), (1, 4));
    assert_eq!(builder.add_outgoing(11, particle(1., 0., 0.)), (1, 0));
    assert_eq!(builder.add_outgoing(22, particle(1., 0., 0.)), (3, 0));
    let ev = builder.build().unwrap();
    let pids: Vec<i32> = ev.outgoing.iter().map(|s| s.pid).collect();
    assert_eq!(pids, vec![-11, 11, 21, 22]);
    let pts: Vec<f64> = ev.outgoing[2].particles.iter().map(|p| value(p.pt).round()).collect();
    assert_eq!(pts, vec![5., 3., 3., 2., 1.]);
    // among equal transverse momenta the later particle comes last
    assert_eq!(value(ev.outgoing[2].particles[1].azimuth), 0.);
    assert!((value(ev.outgoing[2].particles[2].azimuth) - 1.).abs() < 1e-15);
    assert_eq!(ev.id(), 0);
}

#[test]
fn event_needs_finite_weights() {
    assert!(EventBuilder::new().build().is_none());
    for bad in [f64::INFINITY, f64::NEG_INFINITY] {
        let mut builder = EventBuilder::new();
        builder.weights(vec![num(1.), num(bad)]);
        assert!(builder.build().is_none());
        assert!(!all_finite(&vec![num(1.), num(bad)]));
    }
    assert!(all_finite(&vec![]));
    let mut builder = EventBuilder::new();
    builder.weights(vec![num(-1.5), num(2.)]);
    let ev = builder.build().unwrap();
    assert_eq!(value(ev.weight()), -1.5);
    assert!(ev.outgoing.is_empty());
}

fn distance(tau: f64, a: &Event, b: &Event) -> f64 {
    let d = EuclWithScaledPt::new(num(tau)).unwrap();
    let ab = value(d.distance(a, b));
    let ba = value(d.distance(b, a));
    assert_eq!(ab, ba);
    ab
}

#[test]
fn distance_of_particles_in_rapidity_azimuth_and_momentum() {
    let a = event(&[(21, particle(10., 0., 0.))]);
    let b = event(&[(21, particle(13., 0., 0.))]);
    assert_eq!(distance(1., &a, &b), 3.);
    assert_eq!(distance(0.5, &a, &b), 1.5);
    assert_eq!(distance(0., &a, &b), 0.);
    let c = event(&[(21, particle(10., 0.3, 0.4))]);
    assert!((distance(0., &a, &c) - 0.5).abs() < 1e-14);
    let d = event(&[(21, particle(14., 0.3, 0.4))]);
    assert!((distance(0.25, &a, &d) - (0.25f64 + 1.).sqrt()).abs() < 1e-14);
}

#[test]
fn azimuth_differences_go_the_short_way() {
    let a = event(&[(21, particle(10., 3., 0.))]);
    let b = event(&[(21, particle(10., -3., 0.))]);
    let expected = 2. * std::f64::consts::PI - 6.;
    assert!((distance(1., &a, &b) - expected).abs() < 1e-14);
    let c = event(&[(21, particle(10., 1.5, 0.))]);
    let d = event(&[(21, particle(10., -1.5, 0.))]);
    assert!((distance(1., &c, &d) - 3.).abs() < 1e-14);
}

#[test]
fn distance_adds_up_over_particles_and_species() {
    let a = event(&[(21, particle(10., 0., 0.)), (21, particle(4., 0., 0.)), (11, particle(7., 0., 0.))]);
    let b = event(&[(21, particle(12., 0., 0.)), (21, particle(3., 0., 0.)), (11, particle(2., 0., 0.))]);
    // the harder gluons are paired, and the softer ones
    assert_eq!(distance(1., &a, &b), 2. + 1. + 5.);
}

#[test]
fn particles_without_a_partner_count_with_their_norm() {
    let a = event(&[(21, particle(10., 0., 0.)), (21, particle(4., 0., 0.))]);
    let b = event(&[(21, particle(12., 0., 0.))]);
    assert_eq!(distance(1., &a, &b), 2. + 4.);
    let c = event(&[(22, particle(3., 0., 0.))]);
    assert_eq!(distance(1., &b, &c), 12. + 3.);
    let none = event(&[]);
    assert_eq!(distance(1., &none, &none), 0.);
    assert_eq!(distance(1., &a, &none), 14.);
    let e = event(&[(21, particle(3., 2., 0.))]);
    assert!((distance(0., &e, &none) - 2.).abs() < 1e-14);
    let f = event(&[(21, particle(3., -2., 1.5))]);
    assert!((distance(2., &f, &none) - (2.25f64 + 4. + 36.).sqrt()).abs() < 1e-13);
}

#[test]
fn distance_of_an_event_from_itself_is_zero() {
    let a = event(&[(21, particle(10., 0.3, 1.)), (21, particle(4., -2., -0.5)), (11, particle(7., 3., 0.))]);
    let a2 = event(&[(21, particle(10., 0.3, 1.)), (21, particle(4., -2., -0.5)), (11, particle(7., 3., 0.))]);
    for tau in [0., 0.5, 3.] {
        assert_eq!(distance(tau, &a, &a), 0.);
        assert_eq!(distance(tau, &a, &a2), 0.);
    }
}

#[test]
fn weight_of_the_transverse_momentum_must_not_be_negative() {
    assert!(EuclWithScaledPt::new(num(-0.5)).is_none());
    assert!(EuclWithScaledPt::new(num(f64::INFINITY)).is_none());
    assert!(EuclWithScaledPt::new(num(0.)).is_some());
}

#[test]
fn particle_from_logarithm_and_angle() {
    let p = FourVector::new(num(5.), num(3.), num(-4.), num(0.)).unwrap();
    let made = Particle::with_logarithm(p, num(1.5), num(-0.25)).unwrap();
    assert_eq!(value(made.momentum.e), 5.);
    assert_eq!(value(made.momentum.py), -4.);
    assert_eq!(value(made.rapidity), 0.75);
    assert_eq!(value(made.azimuth), -0.25);
    assert_eq!(value(made.pt), 5.);

    assert!(Particle::with_logarithm(p, num(f64::NEG_INFINITY), num(0.)).is_none());
    assert!(Particle::with_logarithm(p, num(f64::INFINITY), num(0.)).is_none());
    assert!(Particle::with_logarithm(p, num(1.5), num(3.5)).is_none());
    assert!(Particle::with_logarithm(p, num(1.5), num(-3.5)).is_none());
    assert!(Particle::with_logarithm(p, num(1.5), num(std::f64::consts::PI)).is_some());

    let wide = FourVector::new(num(1e308), num(1e308), num(1e308), num(0.)).unwrap();
    assert!(Particle::with_logarithm(wide, num(0.), num(0.75)).is_none());
}

#[test]
fn new_particle_is_the_one_of_its_logarithm_and_angle() {
    let p = FourVector::new(num(5.), num(-3.), num(1.), num(4.)).unwrap();
    let log = num(9.).ln();
    let angle = num(1.).atan2(num(-3.));
    let made = Particle::new(p).unwrap();
    let same = Particle::with_logarithm(p, log, angle).unwrap();
    assert_eq!(made.rapidity.to_bits(), same.rapidity.to_bits());
    assert_eq!(made.azimuth.to_bits(), same.azimuth.to_bits());
    assert_eq!(made.pt.to_bits(), same.pt.to_bits());
    assert!((value(made.rapidity) - 0.5 * 9f64.ln()).abs() < 1e-15);
    assert!(value(made.azimuth) > std::f64::consts::FRAC_PI_2);
    assert_eq!(value(made.pt), 10f64.sqrt());
}

#[test]
fn distance_of_different_events_can_vanish() {
    // without a weight on the transverse momentum it does not count
    let a = event(&[(21, particle(10., 0., 0.))]);
    let b = event(&[(21, particle(13., 0., 0.))]);
    assert_eq!(distance(0., &a, &b), 0.);
    assert!(distance(1e-3, &a, &b) > 0.);
    // differences whose squares are below the smallest number are lost
    let c = event(&[(21, particle(1., 0., 0.))]);
    let d = event(&[(21, particle(1. + 1e-15, 0., 0.))]);
    assert!(value(c.outgoing[0].particles[0].pt) != value(d.outgoing[0].particles[0].pt));
    assert_eq!(distance(1e-150, &c, &d), 0.);
}
