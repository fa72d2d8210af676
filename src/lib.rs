//! A single regression-tree learner over columnar data: a byte-level CSV
//! reader, datasets with stable row partitioning, bin assignment over
//! ordered boundaries, split selection from per-bin score curves, and a
//! recursive tree builder.
//!
//! The value type of columns, labels and scores is a parameter: the logic
//! here only moves and compares values, and the arithmetic that produces
//! boundaries and scores is supplied by the caller.

pub mod csv_parser;
pub mod dataset;
pub mod quantize;
pub mod tree;
pub mod util;
pub mod variance;
