//! An exporter of the Kraken exchange's ticker for Prometheus: from the
//! exchange's public answers to labelled gauges and their exposition.
//!
//! The library decides and computes; it performs no request itself. A
//! caller hands the events of a generation cycle to `state::State` and does
//! what the returned action asks for.

pub mod decimal;
pub mod discovery;
pub mod error;
pub mod exposition;
pub mod gauges;
pub mod json;
pub mod labels;
pub mod model;
pub mod registry;
pub mod scrape;
pub mod state;
pub mod table;
pub mod text;
