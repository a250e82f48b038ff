use cres::compression::Compression;
use cres::event::{Event, EventBuilder};
use cres::number::Real;
use cres::writer::{cell_file_name, record_targets, rescale_weights, FileWriter, OutputFormat};

fn num(x: f64) -> Real {
    Real::from_bits(x.to_bits()).unwrap()
}

fn values(v: &[Real]) -> Vec<f64> {
    v.iter().map(|x| f64::from_bits(x.to_bits())).collect()
}

fn event(id: usize) -> Event {
    let mut builder = EventBuilder::new();
    builder.weights(vec![num(1.)]);
    let mut ev = builder.build().unwrap();
    ev.id = id;
    ev
}

#[test]
fn formats_have_lower_case_names() {
    assert_eq!(OutputFormat::HepMC2.to_string(), "hepmc2");
    assert_eq!(OutputFormat::Root.to_string(), "root");
    assert_eq!(OutputFormat::default(), OutputFormat::HepMC2);
}

#[test]
fn cell_files_are_named_by_number_and_format() {
    assert_eq!(cell_file_name(0, OutputFormat::HepMC2), "cell0.hepmc2");
    assert_eq!(cell_file_name(7, OutputFormat::Root), "cell7.root");
    assert_eq!(cell_file_name(10, OutputFormat::HepMC2), "cell10.hepmc2");
    assert_eq!(cell_file_name(1203450, OutputFormat::HepMC2), "cell1203450.hepmc2");
    assert_eq!(cell_file_name(usize::MAX, OutputFormat::Root), format!("cell{}.root", usize::MAX));
}

#[test]
fn records_are_lined_up_with_events_by_id() {
    let events: Vec<Event> = [5, 0, 3].iter().map(|&id| event(id)).collect();
    assert_eq!(record_targets(&events).unwrap(), vec![Some(1), None, None, Some(2), None, Some(0)]);
    assert_eq!(record_targets(&[]).unwrap(), Vec::<Option<usize>>::new());
    assert_eq!(record_targets(&[event(0)]).unwrap(), vec![Some(0)]);
}

#[test]
fn first_event_with_an_id_gets_the_record() {
    let events: Vec<Event> = [2, 1, 2, 1].iter().map(|&id| event(id)).collect();
    assert_eq!(record_targets(&events).unwrap(), vec![None, Some(1), Some(0)]);
}

#[test]
fn largest_id_is_refused() {
    let events: Vec<Event> = [1, usize::MAX].iter().map(|&id| event(id)).collect();
    assert!(record_targets(&events).is_none());
}

#[test]
fn other_weights_follow_the_central_weight() {
    let mut weights = vec![num(2.), num(3.), num(0.), num(-8.)];
    rescale_weights(&mut weights, num(0.5));
    assert_eq!(values(&weights), vec![0.5, 0.75, 0., -2.]);
    let mut weights = vec![num(3.), num(1.)];
    rescale_weights(&mut weights, num(1.));
    assert_eq!(values(&weights), vec![1., 1. * (1. / 3.)]);
    let mut weights = vec![num(4.)];
    rescale_weights(&mut weights, num(-1.));
    assert_eq!(values(&weights), vec![-1.]);
}

#[test]
fn weights_beside_a_central_weight_of_zero_stay() {
    let mut weights = vec![num(0.), num(3.), num(-1.)];
    rescale_weights(&mut weights, num(0.5));
    assert_eq!(values(&weights), vec![0.5, 3., -1.]);
    let mut weights = vec![num(2.), num(3.)];
    rescale_weights(&mut weights, num(0.));
    assert_eq!(values(&weights), vec![0., 0.]);
}

#[test]
fn writer_is_built_from_its_settings() {
    assert!(FileWriter::builder().build().is_none());
    assert!(FileWriter::builder().format(OutputFormat::Root).build().is_none());
    let writer = FileWriter::builder().filename("out.hepmc2".to_string()).build().unwrap();
    assert_eq!(writer.filename(), "out.hepmc2");
    assert_eq!(writer.format(), OutputFormat::HepMC2);
    assert_eq!(writer.compression(), None);
    assert!(writer.cell_file_names(3).is_empty());
    let writer = FileWriter::builder()
        .filename("out.root".to_string())
        .format(OutputFormat::Root)
        .compression(Some(Compression::Zstd(3)))
        .dump_cells(true)
        .build()
        .unwrap();
    assert_eq!(writer.filename(), "out.root");
    assert_eq!(writer.format(), OutputFormat::Root);
    assert_eq!(writer.compression(), Some(Compression::Zstd(3)));
    assert_eq!(writer.cell_file_names(3), vec!["cell0.root", "cell1.root", "cell2.root"]);
    assert!(writer.cell_file_names(0).is_empty());
}
