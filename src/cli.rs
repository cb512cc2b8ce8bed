//! The options a caller hands the classifier.
use vstd::prelude::*;

verus! {

/// How to read an input and how to show the result.
pub struct Cli {
    /// Path to the input file.
    pub file_path: String,
    /// Whether to read the input in chunks, classified concurrently.
    pub use_chunks: bool,
    /// The largest chunk, in bytes.
    pub chunk_size: usize,
    /// Whether to show the result as a boxed table.
    pub pretty_print: bool,
    /// Whether to report each line that fails to parse.
    pub verbose_errors: bool,
}

} // verus!
