//! The error taxonomy of the library: configuration errors fail fast,
//! a run that never accepted a line is a generation failure, and
//! collaborator problems surface as processing errors.

use vstd::prelude::*;
use vstd::string::StringExecFns;

verus! {

/// Why an operation of the library failed.
#[derive(Debug, Clone)]
pub enum StringArtError {
    StateLock { message: String },
    InvalidParameter { message: String },
    PathGenerationFailed { reason: String },
    NoImprovementFound { iterations: usize },
    ImageProcessingError { message: String },
    SerializationError { message: String },
}

impl StringArtError {
    /// A human-readable description of the error.
    pub fn message(&self) -> (r: String)
        ensures
            (match self {
                StringArtError::StateLock { message } => r@ == message@,
                StringArtError::InvalidParameter { message } => r@ == message@,
                StringArtError::PathGenerationFailed { reason } => r@ == reason@,
                StringArtError::ImageProcessingError { message } => r@ == message@,
                StringArtError::SerializationError { message } => r@ == message@,
                StringArtError::NoImprovementFound { .. } => r@
                    == "no improvement found after repeated iterations"@,
            }),
    {
        match self {
            StringArtError::StateLock { message } => message.clone(),
            StringArtError::InvalidParameter { message } => message.clone(),
            StringArtError::PathGenerationFailed { reason } => reason.clone(),
            StringArtError::ImageProcessingError { message } => message.clone(),
            StringArtError::SerializationError { message } => message.clone(),
            StringArtError::NoImprovementFound { .. } => {
                let mut s = String::new();
                s.append("no improvement found after repeated iterations");
                s
            },
        }
    }
}

} // verus!
