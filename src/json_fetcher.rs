//! Errors of reading the corpus from its data directory.

use vstd::prelude::*;

verus! {

#[derive(Debug, Clone, Copy, PartialEq, Eq, Structural)]
pub enum JsonFetcherError {
    /// The data directory does not exist.
    DatadirNotFound,
    /// No directory of the data directory held a readable file.
    NoFilesFound,
}

impl JsonFetcherError {
    /// A sentence that explains the error.
    pub fn message(&self) -> (r: &'static str)
        ensures
            r@ == match self {
                JsonFetcherError::DatadirNotFound => "Main data directory not found."@,
                JsonFetcherError::NoFilesFound => "No files with usable data found in subdirectories of main data directory."@,
            },
    {
        match self {
            JsonFetcherError::DatadirNotFound => "Main data directory not found.",
            JsonFetcherError::NoFilesFound => "No files with usable data found in subdirectories of main data directory.",
        }
    }
}

} // verus!
