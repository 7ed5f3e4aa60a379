//! Ingestion and encoding pipeline for labeled network-flow capture records.
//!
//! The crate parses loosely-typed flow records (numeric fields carried as
//! strings, timestamps in a fixed `YYYY-MM-DD HH:MM:SS[.fraction]` format)
//! into a strongly-typed, protocol-aware packet model, aggregates per-file
//! shards into a labeled dataset, and derives integer feature rows, labels,
//! exact min-max normalization data and deterministic train/validation
//! splits for a downstream learner.

pub mod categories;
pub mod data_structure;
pub mod dataset;
pub mod encoder;
pub mod numeric;
pub mod parse_data;
pub mod timestamp;
pub mod visualise;
