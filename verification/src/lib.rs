//! Chunk-aligned parallel aggregation of per-key statistics.
//!
//! The library cuts a delimited byte stream into record-aligned
//! blocks, extracts `(key, value)` records from each block, folds them
//! into per-key accumulators (minimum, maximum, sum, count), merges
//! the accumulators produced by independent workers, and renders the
//! merged table as sorted, rounded output rows.  Values carry one
//! fractional decimal digit and are represented exactly as integer
//! counts of tenths, so every statistic of the pipeline is exact.
//!
//! Reading the input, distributing blocks to worker threads over a
//! bounded queue, and printing the result are left to the embedding
//! program; every decision about bytes, records and statistics is made
//! here.

use vstd::prelude::*;

pub mod chunk;
pub mod error;
pub mod format;
pub mod record;
pub mod stats;
pub mod table;

pub use chunk::Chunker;
pub use error::Error;
pub use format::{format_tenths, round_mean};
pub use record::{extract_records, parse_tenths};
pub use stats::Stats;
pub use table::{Row, StatsTable};

verus! {

} // verus!
