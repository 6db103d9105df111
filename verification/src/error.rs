//! The failures an extraction call can end in.

use vstd::prelude::*;

verus! {

/// Why an extraction call failed.
///
/// All three are terminal for the call: the component never retries, and the
/// caller decides whether to try another template or surface the failure.
#[derive(Clone, Copy, Debug, PartialEq, Eq, Structural)]
pub enum PathExtractionError {
    /// The candidate and the pattern split into different segment counts, so
    /// the candidate cannot possibly match this template.
    MissingParams,
    /// A literal pattern segment does not equal the corresponding candidate
    /// segment exactly.
    InvalidFormat,
    /// Neither the record-shaped nor the tuple-shaped decode could represent
    /// the extracted parameters in the caller's target shape.
    UnsupportedType,
}

impl PathExtractionError {
    /// A short description of the failure.
    pub fn message(&self) -> (r: &'static str)
        ensures
            *self == PathExtractionError::MissingParams ==> r@ == "Missing URL parameters"@,
            *self == PathExtractionError::InvalidFormat ==> r@ == "Invalid URL parameter format"@,
            *self == PathExtractionError::UnsupportedType ==> r@ == "Unsupported target type"@,
    {
        match self {
            PathExtractionError::MissingParams => "Missing URL parameters",
            PathExtractionError::InvalidFormat => "Invalid URL parameter format",
            PathExtractionError::UnsupportedType => "Unsupported target type",
        }
    }
}

} // verus!
