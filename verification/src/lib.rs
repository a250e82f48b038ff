//! Cell resampling of weighted Monte-Carlo event samples.
//!
//! Events with negative weight are grouped with their nearest neighbours into
//! cells, and the weights inside each cell are replaced by their mean. This
//! keeps the sum of weights in each cell, up to rounding, and leaves fewer
//! negative weights.
//!
//! The steps of the pipeline are these:
//!
//! 1. [`converter`] makes an [`event::Event`] from each record of the input.
//! 2. [`resampler`] splits the events into partitions and, in each of them,
//!    makes a [`cell::Cell`] around each seed that [`seeds`] selects, with the
//!    nearest neighbours that [`naive_neighbour_search`] finds by the
//!    [`distance`] between events.
//! 3. [`unweight`] raises small weights to a smallest weight, or drops the
//!    event, at random.
//! 4. [`cres`] runs these steps and sorts the events that are left.
//! 5. [`writer`] lines the events up with the records of the input again.
pub mod number;
pub mod text;
pub mod sorting;
pub mod event;
pub mod traits;
pub mod naive_neighbour_search;
pub mod cell;
pub mod distance;
pub mod seeds;
pub mod resampler;
pub mod cell_collector;
pub mod unweight;
pub mod compression;
pub mod converter;
pub mod cres;
pub mod opt;
pub mod stripper_xml;
pub mod writer;
