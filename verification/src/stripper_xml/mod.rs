//! Support for the STRIPPER XML format.
pub mod reader;
