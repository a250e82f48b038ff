use cres::cell::Cell;
use cres::cres::{Cres, CresBuilder, CresError};
use cres::distance::{Distance, EuclWithScaledPt};
use cres::event::{Event, EventBuilder, FourVector, Particle};
use cres::naive_neighbour_search::NaiveNeighbourSearch;
use cres::number::Real;
use cres::resampler::{resample_partition, Resampler, ResamplerBuilder};
use cres::seeds::Strategy;
use cres::unweight::Unweighter;

fn num(x: f64) -> Real {
    Real::from_bits(x.to_bits()).unwrap()
}

fn value(x: Real) -> f64 {
    f64::from_bits(x.to_bits())
}

/// An event with one massless particle of the given transverse momentum
/// along the x axis.
fn event(weight: f64, pt: f64) -> Event {
    let p = FourVector::new(num(pt), num(pt), num(0.), num(0.)).unwrap();
    let mut builder = EventBuilder::new();
    builder.weights(vec![num(weight)]);
    builder.add_outgoing(21, Particle::new(p).unwrap());
    builder.build().unwrap()
}

fn weights(events: &[Event]) -> Vec<f64> {
    events.iter().map(|e| value(e.weight())).collect()
}

fn pipeline(
    strategy: Strategy,
    max_cell_size: Option<f64>,
    partitions: usize,
    min_wt: f64,
) -> Cres<(), (), Resampler<EuclWithScaledPt>, Unweighter, ()> {
    let distance = EuclWithScaledPt::new(num(1.)).unwrap();
    let resampler = ResamplerBuilder::new(distance)
        .strategy(strategy)
        .max_cell_size(max_cell_size.map(num))
        .num_partitions(partitions)
        .build()
        .unwrap();
    let unweighter = Unweighter::new(num(min_wt), 42).unwrap();
    CresBuilder { reader: (), converter: (), resampler, unweighter, writer: () }.build()
}

const STRATEGIES: [Strategy; 3] = [Strategy::Next, Strategy::MostNegative, Strategy::LeastNegative];

#[test]
fn negative_event_among_identical_events_is_cancelled() {
    for strategy in STRATEGIES {
        let events = vec![event(1., 1.), event(1., 1.), event(-1., 1.)];
        let mut cres = pipeline(strategy, None, 1, 0.);
        let (out, cells) = cres.run::<NaiveNeighbourSearch>(events).unwrap();
        // the cell stops growing with the first neighbour, which is the
        // event with the lowest index among those at the same distance
        assert_eq!(cells.ncells(), 1);
        assert_eq!(cells.cell(0).member_ids, vec![2, 0]);
        assert_eq!(cells.cell(0).nneg, 1);
        assert_eq!(value(cells.cell(0).weight_sum), 0.);
        assert_eq!(weights(&out), vec![0., 0., 1.]);
        let ids: Vec<usize> = out.iter().map(|e| e.id()).collect();
        assert_eq!(ids, vec![0, 2, 1]);
        let sum: f64 = weights(&out).iter().sum();
        assert_eq!(sum, 1.);
    }
}

#[test]
fn three_events_share_their_weight() {
    for strategy in STRATEGIES {
        let events = vec![event(1., 1.), event(1., 1.), event(-1.5, 1.)];
        let mut cres = pipeline(strategy, None, 1, 0.);
        let (out, cells) = cres.run::<NaiveNeighbourSearch>(events).unwrap();
        assert_eq!(cells.cell(0).member_ids.len(), 3);
        assert_eq!(weights(&out), vec![0.5 / 3.; 3]);
    }
}

#[test]
fn neighbour_within_largest_cell_size_joins() {
    let mut events = vec![event(2., 1.), event(-1., 1.3)];
    let distance = EuclWithScaledPt::new(num(1.)).unwrap();
    let cells = resample_partition::<EuclWithScaledPt, NaiveNeighbourSearch>(
        &mut events,
        &distance,
        Strategy::MostNegative,
        Some(num(1.)),
        false,
    );
    assert_eq!(weights(&events), vec![0.5, 0.5]);
    assert_eq!(cells.len(), 1);
    assert_eq!(cells[0].nmembers(), 2);
    assert_eq!(cells[0].member_indices(), &vec![1, 0]);
    assert!((value(cells[0].radius()) - 0.3).abs() < 1e-12);
    assert_eq!(value(cells[0].weight_sum()), 1.);
}

#[test]
fn neighbour_beyond_largest_cell_size_stays_out() {
    let mut events = vec![event(2., 1.), event(-1., 1.3)];
    let distance = EuclWithScaledPt::new(num(1.)).unwrap();
    let cells = resample_partition::<EuclWithScaledPt, NaiveNeighbourSearch>(
        &mut events,
        &distance,
        Strategy::MostNegative,
        Some(num(0.1)),
        false,
    );
    assert_eq!(weights(&events), vec![2., -1.]);
    assert_eq!(cells.len(), 1);
    assert_eq!(cells[0].nmembers(), 1);
    assert_eq!(value(cells[0].radius()), 0.);
    assert!(value(cells[0].weight_sum()) < 0.);
    let reached = cells.iter().filter(|c| value(c.weight_sum()) >= 0.).count();
    assert_eq!(reached, 0);
}

#[test]
fn cancelling_weights_give_zero_for_each_strategy() {
    for strategy in [Strategy::LeastNegative, Strategy::MostNegative] {
        let events = vec![event(1., 1.), event(1., 1.), event(-1., 1.), event(-1., 1.)];
        let mut cres = pipeline(strategy, None, 1, 0.);
        let (out, _cells) = cres.run::<NaiveNeighbourSearch>(events).unwrap();
        assert_eq!(weights(&out), vec![0.; 4]);
    }
}

#[test]
fn thousand_events_in_four_partitions_lose_all_negative_weights() {
    let mut state: u64 = 0x2545_F491_4F6C_DD1D;
    let mut next = move || {
        state ^= state << 13;
        state ^= state >> 7;
        state ^= state << 17;
        state
    };
    let mut events = Vec::new();
    let mut sum_in = 0.;
    for _ in 0..1000 {
        let weight = if next() % 10 < 3 { -1. } else { 1. };
        let pt = 1. + (next() % 1000) as f64 / 10.;
        sum_in += weight;
        events.push(event(weight, pt));
    }
    let mut cres = pipeline(Strategy::Next, None, 4, 0.);
    let (out, cells) = cres.run::<NaiveNeighbourSearch>(events).unwrap();
    assert_eq!(out.len(), 1000);
    assert!(cells.ncells() > 0);
    for c in 0..cells.ncells() {
        let ids = &cells.cell(c).member_ids;
        assert!(ids.iter().all(|id| id % 4 == ids[0] % 4));
    }
    let negative = out.iter().filter(|e| value(e.weight()) < 0.).count();
    assert_eq!(negative, 0);
    let sum_out: f64 = weights(&out).iter().sum();
    assert!((sum_out - sum_in).abs() < 1e-10);
    let mut ids: Vec<usize> = out.iter().map(|e| e.id()).collect();
    ids.sort();
    assert_eq!(ids, (0..1000).collect::<Vec<_>>());
}

#[test]
fn one_and_several_partitions_keep_the_sum_of_weights() {
    let make = || {
        let mut events = Vec::new();
        for i in 0..60 {
            let weight = if i % 4 == 0 { -0.5 } else { 1.25 };
            events.push(event(weight, 1. + i as f64));
        }
        events
    };
    let sum_in: f64 = weights(&make()).iter().sum();
    for partitions in [1, 3] {
        let mut cres = pipeline(Strategy::MostNegative, None, partitions, 0.);
        let (out, _) = cres.run::<NaiveNeighbourSearch>(make()).unwrap();
        let sum_out: f64 = weights(&out).iter().sum();
        assert!((sum_out - sum_in).abs() < 60. * f64::EPSILON * sum_in.abs());
    }
}

#[test]
fn sum_of_weights_is_kept_with_a_largest_cell_size() {
    let mut events: Vec<Event> = (0..40)
        .map(|i| event(if i % 3 == 0 { -1.5 } else { 1. }, 1. + (i * i % 17) as f64))
        .collect();
    let sum_in: f64 = weights(&events).iter().sum();
    let distance = EuclWithScaledPt::new(num(1.)).unwrap();
    let cells = resample_partition::<EuclWithScaledPt, NaiveNeighbourSearch>(
        &mut events,
        &distance,
        Strategy::LeastNegative,
        Some(num(2.)),
        false,
    );
    let sum_out: f64 = weights(&events).iter().sum();
    assert!((sum_out - sum_in).abs() < 40. * f64::EPSILON * 40.);
    for cell in &cells {
        let members: Vec<&Event> = cell.iter(&events);
        let after: f64 = members.iter().map(|e| value(e.weight())).sum();
        let before = value(cell.weight_sum());
        assert!((after - before).abs() <= members.len() as f64 * f64::EPSILON * before.abs().max(1.));
        assert!(value(cell.radius()) <= 2.);
    }
}

#[test]
fn output_is_sorted_by_weight_then_id() {
    let events = vec![event(3., 1.), event(1., 5.), event(2., 9.), event(1., 13.)];
    let mut cres = pipeline(Strategy::MostNegative, None, 2, 0.);
    let (out, _) = cres.run::<NaiveNeighbourSearch>(events).unwrap();
    let order: Vec<(f64, usize)> = out.iter().map(|e| (value(e.weight()), e.id())).collect();
    assert_eq!(order, vec![(1., 1), (1., 3), (2., 2), (3., 0)]);
}

#[test]
fn event_with_an_id_is_refused() {
    let mut second = event(1., 2.);
    second.id = 7;
    let events = vec![event(1., 1.), second, event(1., 3.)];
    let mut cres = pipeline(Strategy::MostNegative, None, 1, 0.);
    match cres.run::<NaiveNeighbourSearch>(events) {
        Err(CresError::IdErr(id)) => assert_eq!(id, 7),
        _ => panic!("an event with id 7 must be refused"),
    }
}

#[test]
fn unweighting_gives_the_smallest_weight_or_none() {
    let events = vec![event(0.5, 1.), event(0.5, 2.), event(0.5, 3.), event(0.5, 4.)];
    let mut cres = pipeline(Strategy::MostNegative, None, 1, 1.);
    let (out, _) = cres.run::<NaiveNeighbourSearch>(events).unwrap();
    assert!(out.len() <= 4);
    for w in weights(&out) {
        assert_eq!(w, 1.);
    }
    let mut ids: Vec<usize> = out.iter().map(|e| e.id()).collect();
    ids.dedup();
    assert_eq!(ids.len(), out.len());
    assert!(ids.iter().all(|&id| id < 4));
}

#[test]
fn half_of_the_events_at_half_the_smallest_weight_stay() {
    let make = || -> Vec<Event> { (0..1000).map(|i| event(if i % 2 == 0 { 0.5 } else { -0.5 }, 1.)).collect() };
    let run = |seed: u64| -> Vec<f64> {
        let mut events = make();
        let mut unweighter = Unweighter::new(num(1.), seed).unwrap();
        unweighter.unweight(&mut events);
        weights(&events)
    };
    let first = run(42);
    for (i, w) in first.iter().enumerate() {
        let kept = if i % 2 == 0 { 1. } else { -1. };
        assert!(*w == 0. || *w == kept);
    }
    let nkept = first.iter().filter(|&&w| w != 0.).count();
    assert!(400 < nkept && nkept < 600, "{nkept} events kept");
    assert_eq!(first, run(42));
    assert_ne!(first, run(43));
}

#[test]
fn quarter_of_the_events_at_a_quarter_of_the_smallest_weight_stay() {
    let mut events: Vec<Event> = (0..2000).map(|_| event(0.5, 1.)).collect();
    let mut unweighter = Unweighter::new(num(2.), 7).unwrap();
    unweighter.unweight(&mut events);
    let nkept = weights(&events).iter().filter(|&&w| w == 2.).count();
    assert!(400 < nkept && nkept < 600, "{nkept} events kept");
    let sum: f64 = weights(&events).iter().sum();
    assert!((sum - 1000.).abs() < 200.);
}

#[test]
fn unweighting_can_be_switched_off() {
    let mut events = vec![event(0.5, 1.), event(-1e-300, 1.), event(0., 1.)];
    let mut unweighter = Unweighter::new(num(0.), 7).unwrap();
    assert!(unweighter.disabled());
    unweighter.unweight(&mut events);
    assert_eq!(weights(&events), vec![0.5, -1e-300, 0.]);
    assert!(!Unweighter::new(num(0.5), 7).unwrap().disabled());
}

#[test]
fn events_with_weight_zero_leave_only_if_unweighting_is_on() {
    let events = || vec![event(1., 1.), event(1., 1.), event(-1., 1.), event(-1., 1.)];
    let mut cres = pipeline(Strategy::MostNegative, None, 1, 0.);
    let (out, _) = cres.run::<NaiveNeighbourSearch>(events()).unwrap();
    assert_eq!(out.len(), 4);
    let mut cres = pipeline(Strategy::MostNegative, None, 1, 0.5);
    let (out, _) = cres.run::<NaiveNeighbourSearch>(events()).unwrap();
    assert_eq!(out.len(), 0);
}

#[test]
fn unweighter_leaves_large_weights_alone() {
    let mut events = vec![event(0.5, 1.), event(-2., 2.), event(1., 3.), event(-0.25, 4.)];
    let mut unweighter = Unweighter::new(num(1.), 0).unwrap();
    unweighter.unweight(&mut events);
    let w = weights(&events);
    assert!(w[0] == 0. || w[0] == 1.);
    assert_eq!(w[1], -2.);
    assert_eq!(w[2], 1.);
    assert!(w[3] == 0. || w[3] == -1.);
    assert!(Unweighter::new(num(-1.), 0).is_none());
}

#[test]
fn distance_is_symmetric_and_zero_for_equal_events() {
    let d = EuclWithScaledPt::new(num(0.5)).unwrap();
    let a = event(1., 2.);
    let b = event(1., 3.5);
    assert_eq!(value(d.distance(&a, &b)), value(d.distance(&b, &a)));
    assert_eq!(value(d.distance(&a, &b)), 0.75);
    assert_eq!(value(d.distance(&a, &a)), 0.);
    assert_eq!(value(d.distance(&b, &b)), 0.);
}

#[test]
fn cells_are_recorded_with_the_ids_of_their_events() {
    let events = vec![event(1., 1.), event(-1., 8.), event(-1., 1.5), event(3., 2.), event(1., 7.)];
    let mut cres = pipeline(Strategy::Next, None, 1, 0.);
    let (_, cells) = cres.run::<NaiveNeighbourSearch>(events).unwrap();
    assert_eq!(cells.ncells(), 2);
    assert_eq!(cells.cell(0).member_ids, vec![1, 4]);
    // the events 0 and 3 are equally far from the seed 2: the lower id wins
    assert_eq!(cells.cell(1).member_ids, vec![2, 0]);
    assert_eq!(value(cells.cell(0).radius), 1.);
    assert_eq!(value(cells.cell(1).radius), 0.5);
    assert_eq!(cells.event_cells(0), vec![1]);
    assert_eq!(cells.event_cells(4), vec![0]);
    assert_eq!(cells.event_cells(3), Vec::<usize>::new());
    assert_eq!(cells.median_radius().map(value), Some(1.));
    assert!(cres::cell_collector::CellCollector::new().median_radius().is_none());
}

/// An event with the given weights and one particle.
fn event_with_weights(weights: &[f64], pt: f64) -> Event {
    let mut ev = event(weights[0], pt);
    ev.weights = weights.iter().map(|&w| num(w)).collect();
    ev
}

#[test]
fn all_weights_are_averaged_on_request() {
    let mut events = vec![
        event_with_weights(&[2., 4., 8.], 1.),
        event_with_weights(&[-1., 1., -2.], 1.5),
        event_with_weights(&[5., 5., 5.], 10.),
    ];
    let distance = EuclWithScaledPt::new(num(1.)).unwrap();
    let cells = resample_partition::<EuclWithScaledPt, NaiveNeighbourSearch>(
        &mut events,
        &distance,
        Strategy::MostNegative,
        None,
        true,
    );
    assert_eq!(cells.len(), 1);
    assert_eq!(cells[0].member_indices(), &vec![1, 0]);
    for i in [0, 1] {
        let w: Vec<f64> = events[i].weights.iter().map(|&w| value(w)).collect();
        assert_eq!(w, vec![0.5, 2.5, 3.]);
    }
    let w: Vec<f64> = events[2].weights.iter().map(|&w| value(w)).collect();
    assert_eq!(w, vec![5., 5., 5.]);
}

#[test]
fn mean_of_all_weights_is_a_sum_times_the_inverse_count() {
    // the sum is taken in the order of the indices and multiplied by 1/3,
    // which differs from a division by three in the last digit
    let mut events = vec![
        event_with_weights(&[0.1, 1.], 1.),
        event_with_weights(&[0.2, 1.], 1.),
        event_with_weights(&[-0.25, 1.], 1.),
    ];
    let distance = EuclWithScaledPt::new(num(1.)).unwrap();
    let pool = cres::distance::DistWrapper::new(&distance, &events);
    let mut search: NaiveNeighbourSearch = cres::traits::NeighbourSearch::new_with_dist(3, &pool);
    let mut neighbours = cres::traits::NeighbourSearch::nearest_in(&mut search, 2, &pool);
    let cell = Cell::new(&events, 2, &mut neighbours, None);
    assert_eq!(cell.member_indices(), &vec![2, 0, 1]);
    cell.resample_multiweight(&mut events);
    let expected = ((0.1f64 + 0.2) + -0.25) * (1. / 3.);
    for ev in &events {
        assert_eq!(value(ev.weights[0]), expected);
        assert_eq!(value(ev.weights[1]), (1.0f64 + 1. + 1.) * (1. / 3.));
    }
}

#[test]
fn sums_of_all_weights_go_by_index() {
    // the nearer neighbour has the higher index, so that the members are not
    // in the order of their indices
    let mut events = vec![
        event_with_weights(&[1., 1.], 3.),
        event_with_weights(&[1., 1e16], 2.),
        event_with_weights(&[-3., -1e16], 1.),
    ];
    let distance = EuclWithScaledPt::new(num(1.)).unwrap();
    let cells = resample_partition::<EuclWithScaledPt, NaiveNeighbourSearch>(
        &mut events,
        &distance,
        Strategy::Next,
        None,
        true,
    );
    assert_eq!(cells[0].member_indices(), &vec![2, 1, 0]);
    for ev in &events {
        assert_eq!(value(ev.weights[0]), ((1.0f64 + 1.) + -3.) * (1. / 3.));
        // (1 + 1e16) - 1e16 is zero, while (-1e16 + 1e16) + 1 is one
        assert_eq!(value(ev.weights[1]), 0.);
    }
}

#[test]
fn pipeline_averages_all_weights_on_request() {
    let events = vec![event_with_weights(&[3., 1.], 1.), event_with_weights(&[-1., 3.], 1.)];
    let distance = EuclWithScaledPt::new(num(0.)).unwrap();
    let resampler = ResamplerBuilder::new(distance).multiweight(true).build().unwrap();
    let unweighter = Unweighter::new(num(0.), 1).unwrap();
    let mut cres = CresBuilder { reader: (), converter: (), resampler, unweighter, writer: () }.build();
    let (out, _) = cres.run::<NaiveNeighbourSearch>(events).unwrap();
    for ev in &out {
        assert_eq!(value(ev.weights[0]), 1.);
        assert_eq!(value(ev.weights[1]), 2.);
    }
}

#[test]
fn pipeline_can_be_run_in_two_steps() {
    let events = vec![event(2., 1.), event(-1., 1.3), event(4., 7.)];
    let mut cres = pipeline(Strategy::MostNegative, None, 2, 0.);
    let parts = cres.resample::<NaiveNeighbourSearch>(events).ok().unwrap();
    assert_eq!(parts.len(), 2);
    // the events 0 and 2 are in the first partition, the event 1 in the second
    assert_eq!(weights(&parts[0].events), vec![2., 4.]);
    assert_eq!(weights(&parts[1].events), vec![-1.]);
    assert_eq!(parts[0].cells.len(), 0);
    assert_eq!(parts[1].cells.len(), 1);
    let (out, cells) = cres.finish(parts);
    let order: Vec<(f64, usize)> = out.iter().map(|e| (value(e.weight()), e.id())).collect();
    assert_eq!(order, vec![(-1., 1), (2., 0), (4., 2)]);
    assert_eq!(cells.ncells(), 1);
    assert_eq!(cells.cell(0).member_ids, vec![1]);
    let builder = cres.into_builder();
    let mut again = builder.build();
    assert!(again.run::<NaiveNeighbourSearch>(vec![]).ok().unwrap().0.is_empty());
}

#[test]
fn partitions_can_be_resampled_one_by_one() {
    let events: Vec<Event> = (0..7)
        .map(|i| {
            let mut ev = event(if i % 3 == 0 { -1. } else { 2. }, 1. + i as f64);
            ev.id = i;
            ev
        })
        .collect();
    let distance = EuclWithScaledPt::new(num(1.)).unwrap();
    let resampler = ResamplerBuilder::new(distance).num_partitions(3).build().unwrap();
    let pools = resampler.split(events);
    let ids: Vec<Vec<usize>> = pools.iter().map(|pool| pool.iter().map(|ev| ev.id()).collect()).collect();
    assert_eq!(ids, vec![vec![0, 3, 6], vec![1, 4], vec![2, 5]]);
    let mut parts = Vec::new();
    for pool in pools {
        parts.push(resampler.resample_one::<NaiveNeighbourSearch>(pool));
    }
    // the first partition holds all the negative weights: the first seed
    // takes the other events into its cell and finds no positive weight
    assert_eq!(weights(&parts[0].events), vec![-1., -1., -1.]);
    assert_eq!(parts[0].cells.len(), 1);
    assert_eq!(parts[0].cells[0].member_indices(), &vec![0, 1, 2]);
    assert_eq!(value(parts[0].cells[0].weight_sum()), -3.);
    assert_eq!(weights(&parts[1].events), vec![2., 2.]);
    assert!(parts[1].cells.is_empty());
    assert!(parts[2].cells.is_empty());
}

#[test]
fn resampler_needs_a_partition() {
    let distance = EuclWithScaledPt::new(num(0.)).unwrap();
    let err = ResamplerBuilder::new(distance).num_partitions(0).build();
    assert!(matches!(err, Err(cres::resampler::ResamplingError::NoPartitions)));
}

#[test]
fn cell_counts_negative_weights() {
    let events = vec![event(-1., 1.), event(-1., 1.5), event(3., 2.)];
    let distance = EuclWithScaledPt::new(num(1.)).unwrap();
    let pool = cres::distance::DistWrapper::new(&distance, &events);
    let mut search: NaiveNeighbourSearch = cres::traits::NeighbourSearch::new_with_dist(3, &pool);
    let mut neighbours = cres::traits::NeighbourSearch::nearest_in(&mut search, 0, &pool);
    let cell = Cell::new(&events, 0, &mut neighbours, None);
    assert_eq!(cell.member_indices(), &vec![0, 1, 2]);
    assert_eq!(cell.nmembers(), 3);
    assert_eq!(cell.nneg_weights(&events), 2);
    assert_eq!(cell.nneg(), 2);
    assert_eq!(value(cell.weight_sum()), 1.);
    assert_eq!(value(cell.radius()), 1.);
}

/// The number `x` times two to the power `scale`, which must be an integer.
fn exact(x: f64, scale: i32) -> i128 {
    let bits = x.to_bits();
    let fraction = (bits & ((1 << 52) - 1)) as i128;
    let exponent = ((bits >> 52) & 0x7ff) as i32;
    let (digits, power) = if exponent == 0 { (fraction, -1074) } else { (fraction + (1 << 52), exponent - 1075) };
    if digits == 0 {
        return 0;
    }
    let shift = power + scale;
    assert!((0..70).contains(&shift));
    let size = digits << shift;
    if bits >> 63 == 1 {
        -size
    } else {
        size
    }
}

#[test]
fn cell_and_pool_keep_their_sums_within_rounding() {
    let values = [-0.7, 0.1, 0.3, 0.2, 5.5, 0.05, 1e-3];
    let mut events: Vec<Event> = values.iter().enumerate().map(|(i, &w)| event(w, 1. + i as f64)).collect();
    let before = weights(&events);
    let distance = EuclWithScaledPt::new(num(1.)).unwrap();
    let pool = cres::distance::DistWrapper::new(&distance, &events);
    let mut search: NaiveNeighbourSearch = cres::traits::NeighbourSearch::new_with_dist(values.len(), &pool);
    let mut neighbours = cres::traits::NeighbourSearch::nearest_in(&mut search, 0, &pool);
    let cell = Cell::new(&events, 0, &mut neighbours, None);
    assert_eq!(cell.member_indices(), &vec![0, 1, 2, 3, 4]);
    assert_eq!(value(cell.weight_sum()), (((-0.7f64 + 0.1) + 0.3) + 0.2) + 5.5);
    cell.resample(&mut events);
    let after = weights(&events);
    let mean = value(cell.weight_sum()) / 5.;
    assert_eq!(after, vec![mean, mean, mean, mean, mean, 0.05, 1e-3]);

    let n = cell.nmembers() as i128;
    let members = cell.member_indices();
    let sum = |w: &[f64]| members.iter().map(|&i| exact(w[i], 110)).sum::<i128>();
    let sizes = members.iter().map(|&i| exact(before[i], 110).abs()).sum::<i128>();
    // the sum of the members moves by at most n parts in 2^52 of their sizes
    let off = (sum(&after) - sum(&before)).abs();
    assert!(off <= (2 * n * sizes) >> 53);
    // and so does the sum of the pool
    let total = |w: &[f64]| w.iter().map(|&x| exact(x, 110)).sum::<i128>();
    assert_eq!((total(&after) - total(&before)).abs(), off);
}

#[test]
fn runs_keep_the_total_within_rounding_for_any_number_of_partitions() {
    let values = [-0.7, 0.1, 0.3, -0.2, 5.5, 0.05, 1e-3, -2.25, 0.6, 1.7, -0.9, 3.3];
    let make = || values.iter().enumerate().map(|(i, &w)| event(w, 1. + i as f64)).collect::<Vec<Event>>();
    let n = values.len() as i128;
    let total_in = values.iter().map(|&w| exact(w, 110)).sum::<i128>();
    let sizes = values.iter().map(|&w| exact(w, 110).abs()).sum::<i128>();
    let mut totals = Vec::new();
    for partitions in [1, 2, 5] {
        let mut cres = pipeline(Strategy::MostNegative, None, partitions, 0.);
        let (out, _) = cres.run::<NaiveNeighbourSearch>(make()).unwrap();
        assert_eq!(out.len(), values.len());
        let total_out = weights(&out).iter().map(|&w| exact(w, 110)).sum::<i128>();
        assert!((total_out - total_in).abs() <= (2 * n * sizes) >> 53);
        totals.push(total_out);
    }
    assert!((totals[0] - totals[1]).abs() <= (4 * n * sizes) >> 53);
    assert!((totals[0] - totals[2]).abs() <= (4 * n * sizes) >> 53);
}
