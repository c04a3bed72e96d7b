//! Date-aligned inflation and interest-rate series, a chain graph built over
//! them, and statistics of that graph. Rates are held as whole hundredths of a
//! percentage point, so that every comparison is exact.
pub mod data_processing;
pub mod error;
pub mod graph;
pub mod merge_datasets;
