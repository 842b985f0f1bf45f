use vstd::prelude::*;

verus! {

/// Errors surfaced by the pipeline. Variants carry plain strings (paths,
/// key digits, codes) so a caller can report exactly which file and which
/// key went wrong.
#[derive(Debug)]
pub enum MyError {
    /// A file could not be read: path and cause.
    FileReadError(String, String),
    /// The report file could not be written: path and cause.
    FileWriteError(String, String),
    /// A fiscal key failed validation: file path, digit-only key text,
    /// code found at the code offset, code that was expected.
    InvalidFiscalKey(String, String, String, String),
    /// No input files were found, so there is nothing to aggregate.
    NoXmlFilesFound,
    /// Aggregation finished with an empty mapping.
    NoComplementaryCtesFound,
}

pub type MyResult<T> = Result<T, MyError>;

} // verus!
