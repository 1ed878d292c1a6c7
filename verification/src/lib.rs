//! Per-station summary statistics over a large delimited text file.
//!
//! Each input line holds a station key and a decimal measurement with one
//! fractional digit, separated by `;`. The library cuts the file into
//! newline-aligned chunks, folds the lines of every chunk into one table of
//! running statistics kept in fixed point (tenths), and hands the table out
//! sorted by key. Opening and mapping the file, the worker threads and the
//! channels between them, and the rendering of the report belong to the
//! program built on top of this crate.

pub mod error;
pub mod bytes;
pub mod chunking;
pub mod fixed_point;
pub mod stats;
pub mod key_order;
pub mod report;
pub mod table;
pub mod aggregate;
pub mod fold_laws;
