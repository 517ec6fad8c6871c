//! Aggregation core for comparative benchmark statistics plots.
//!
//! The library ingests per-run benchmark records (identity parameters plus a
//! record of numeric measurements), groups them by an experiment identity,
//! buckets them along a key axis, merges same-bucket records into summary
//! statistics and prepares quartile and axis-label data for a rendering
//! consumer. All measured values are exact fixed-point integers (see
//! [`fixed`]); reading input files and drawing charts are left to callers.
#![verifier::loop_isolation(false)]

pub mod axis_transform;
pub mod fixed;
pub mod sorting;
pub mod statistics_file;
pub mod text;
pub mod decimal;
pub mod format_value;
pub mod grouping;
pub mod histogram;
pub mod merge;
pub mod quartiles;
pub mod reports;
pub mod runtime_memory_csv;
