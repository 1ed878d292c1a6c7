//! The failures that end a run.

use vstd::prelude::*;

verus! {

/// Every fatal condition of the pipeline. None of them is retried, and no
/// partial report is printed once one occurred.
#[derive(Clone, Copy, Debug, PartialEq, Eq, Structural)]
pub enum PipelineError {
    /// The input file could not be opened, or its metadata could not be read.
    FileUnavailable,
    /// A chunk boundary could not be aligned to a newline within its window:
    /// there are too many chunks for the density of lines in the file.
    ChunkTooSmall,
    /// The text after the first `;` of a line is not a decimal measurement.
    MalformedMeasurement,
}

} // verus!
