use cres::cell::Cell;
use cres::distance::{DistWrapper, EuclWithScaledPt};
use cres::event::{Event, EventBuilder, FourVector, Particle};
use cres::naive_neighbour_search::NaiveNeighbourSearch;
use cres::number::Real;
use cres::seeds::{select_seed, Strategy};
use cres::traits::{collect_neighbours, NeighbourIter, NeighbourSearch};

fn num(x: f64) -> Real {
    Real::from_bits(x.to_bits()).unwrap()
}

fn value(x: Real) -> f64 {
    f64::from_bits(x.to_bits())
}

fn event(id: usize, weight: f64, pt: f64) -> Event {
    let p = FourVector::new(num(pt), num(pt), num(0.), num(0.)).unwrap();
    let mut builder = EventBuilder::new();
    builder.weights(vec![num(weight)]);
    builder.add_outgoing(21, Particle::new(p).unwrap());
    let mut ev = builder.build().unwrap();
    ev.id = id;
    ev
}

fn drain(it: &mut cres::naive_neighbour_search::NaiveNeighbourIter) -> Vec<(usize, f64)> {
    collect_neighbours(it).into_iter().map(|(id, d)| (id, value(d))).collect()
}

#[test]
fn neighbours_come_by_distance_then_index() {
    let events: Vec<Event> = [4., 1., 6., 2., 4., 0.5].iter().enumerate().map(|(i, &pt)| event(i, 1., pt)).collect();
    let distance = EuclWithScaledPt::new(num(1.)).unwrap();
    let pool = DistWrapper::new(&distance, &events);
    let mut search = NaiveNeighbourSearch::new_with_dist(events.len(), &pool);
    let mut it = search.nearest_in(0, &pool);
    assert_eq!(drain(&mut it), vec![(4, 0.), (2, 2.), (3, 2.), (1, 3.), (5, 3.5)]);
    assert!(it.next().is_none());
    // a new search starts from all points again
    let mut it = search.nearest_in(3, &pool);
    assert_eq!(drain(&mut it), vec![(1, 1.), (5, 1.5), (0, 2.), (4, 2.), (2, 4.)]);
}

#[test]
fn neighbours_can_be_taken_one_by_one() {
    let events: Vec<Event> = [4., 1., 6., 2.].iter().enumerate().map(|(i, &pt)| event(i, 1., pt)).collect();
    let distance = EuclWithScaledPt::new(num(1.)).unwrap();
    let pool = DistWrapper::new(&distance, &events);
    let mut search = NaiveNeighbourSearch::new_with_dist(events.len(), &pool);
    let mut it = search.nearest_in(1, &pool);
    let (id, d) = it.next().unwrap();
    assert_eq!((id, value(d)), (3, 1.));
    // what is left comes in order, too
    assert_eq!(drain(&mut it), vec![(0, 3.), (2, 5.)]);
    assert!(it.next().is_none());
    assert!(collect_neighbours(&mut it).is_empty());
}

#[test]
fn removed_points_are_not_found() {
    let events: Vec<Event> = [4., 1., 6., 2., 4., 0.5].iter().enumerate().map(|(i, &pt)| event(i, 1., pt)).collect();
    let distance = EuclWithScaledPt::new(num(1.)).unwrap();
    let pool = DistWrapper::new(&distance, &events);
    let mut search = NaiveNeighbourSearch::new_with_dist(events.len(), &pool);
    search.remove(4);
    search.remove(1);
    assert!(search.is_remaining(0));
    assert!(!search.is_remaining(4));
    assert!(!search.is_remaining(17));
    let mut it = search.nearest_in(0, &pool);
    assert_eq!(drain(&mut it), vec![(2, 2.), (3, 2.), (5, 3.5)]);
    // the centre of a search may itself be removed
    let mut it = search.nearest_in(1, &pool);
    assert_eq!(drain(&mut it), vec![(5, 0.5), (3, 1.), (0, 3.), (2, 5.)]);
}

#[test]
fn search_over_a_single_point_finds_nothing() {
    let events = vec![event(0, -1., 1.)];
    let distance = EuclWithScaledPt::new(num(1.)).unwrap();
    let pool = DistWrapper::new(&distance, &events);
    let mut search = NaiveNeighbourSearch::new_with_dist(1, &pool);
    let mut it = search.nearest_in(0, &pool);
    assert!(it.next().is_none());
    let cell = Cell::new(&events, 0, &mut it, None);
    assert_eq!(cell.nmembers(), 1);
    assert_eq!(value(cell.weight_sum()), -1.);
    assert_eq!(value(cell.radius()), 0.);
}

#[test]
fn cell_stops_at_the_largest_cell_size() {
    let events: Vec<Event> =
        [(-5., 1.), (1., 2.), (1., 3.), (1., 4.5), (10., 9.)].iter().enumerate().map(|(i, &(w, pt))| event(i, w, pt)).collect();
    let distance = EuclWithScaledPt::new(num(1.)).unwrap();
    let pool = DistWrapper::new(&distance, &events);
    let mut search = NaiveNeighbourSearch::new_with_dist(events.len(), &pool);
    let mut it = search.nearest_in(0, &pool);
    let cell = Cell::new(&events, 0, &mut it, Some(num(2.)));
    // a neighbour at exactly the largest cell size still joins
    assert_eq!(cell.member_indices(), &vec![0, 1, 2]);
    assert_eq!(value(cell.radius()), 2.);
    assert_eq!(value(cell.weight_sum()), -3.);
    let mut it = search.nearest_in(0, &pool);
    let cell = Cell::new(&events, 0, &mut it, None);
    assert_eq!(cell.member_indices(), &vec![0, 1, 2, 3, 4]);
    assert_eq!(value(cell.weight_sum()), 8.);
    assert_eq!(value(cell.radius()), 8.);
}

#[test]
fn seeds_are_chosen_by_strategy() {
    let events: Vec<Event> =
        [1., -2., -0.5, -3., 4., -0.5, -3.].iter().enumerate().map(|(i, &w)| event(i, w, 1.)).collect();
    let free = vec![false; events.len()];
    assert_eq!(select_seed(Strategy::Next, &events, &free), Some(1));
    assert_eq!(select_seed(Strategy::MostNegative, &events, &free), Some(3));
    assert_eq!(select_seed(Strategy::LeastNegative, &events, &free), Some(2));
    let mut used = free.clone();
    used[1] = true;
    used[2] = true;
    used[3] = true;
    assert_eq!(select_seed(Strategy::Next, &events, &used), Some(5));
    assert_eq!(select_seed(Strategy::MostNegative, &events, &used), Some(6));
    assert_eq!(select_seed(Strategy::LeastNegative, &events, &used), Some(5));
    used[5] = true;
    used[6] = true;
    for strategy in [Strategy::Next, Strategy::MostNegative, Strategy::LeastNegative] {
        assert_eq!(select_seed(strategy, &events, &used), None);
        assert_eq!(select_seed(strategy, &[], &[]), None);
    }
}

#[test]
fn equal_weights_are_told_apart_by_id() {
    let mut events: Vec<Event> = [-1., -1., -1.].iter().enumerate().map(|(i, &w)| event(i, w, 1.)).collect();
    events[0].id = 9;
    events[1].id = 4;
    events[2].id = 4;
    let free = vec![false; 3];
    assert_eq!(select_seed(Strategy::MostNegative, &events, &free), Some(1));
    assert_eq!(select_seed(Strategy::LeastNegative, &events, &free), Some(1));
    assert_eq!(select_seed(Strategy::Next, &events, &free), Some(0));
}

#[test]
fn zero_weight_is_no_seed() {
    let events: Vec<Event> = [0., -0., 1.].iter().enumerate().map(|(i, &w)| event(i, w, 1.)).collect();
    assert_eq!(select_seed(Strategy::Next, &events, &[false; 3]), None);
}
