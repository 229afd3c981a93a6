//! A verified tabular-data pipeline for a council-membership dataset:
//! a typed in-memory table loaded from semicolon-delimited text, a
//! day.month.year date normalizer, a derived day-difference column, and
//! group-by/count/sort aggregations, each with a proved contract.

pub mod aggregate;
pub mod chart;
pub mod column;
pub mod date;
pub mod derived;
pub mod error;
pub mod loader;
pub mod normalize;
pub mod pipeline;
pub mod table;
