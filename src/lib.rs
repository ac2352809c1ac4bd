//! Decoding of aviation surface weather reports (METAR) into typed records.
//!
//! [`grammar`] splits a report into groups in their fixed order, the
//! decoders of [`parser`] turn each group's text into a value, and
//! [`parse_metar`] collects those values into a [`Metar`]. Every step is
//! specified by spec functions, ending in [`parser::decode`]; [`guarantees`]
//! and [`round_trip`] prove properties of that specification, among them that
//! decoding the canonical text of a decoded report gives the same report.
pub mod grammar;
pub mod guarantees;
pub mod metar;
pub mod parser;
pub mod round_trip;
pub mod text;

pub use grammar::{Malformed, MetarParser, Pair, Rule};
pub use metar::Metar;
pub use parser::{parse_metar, Element, ParseError};
