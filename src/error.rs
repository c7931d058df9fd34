//! Why a replay could not be read.
use vstd::prelude::*;

verus! {

/// The ways in which reading a replay fails.
#[derive(Debug, Clone, Copy, PartialEq, Eq, Structural)]
pub enum DogStatsDReplayReaderError {
    /// The buffer does not start with the replay marker.
    NotAReplayFile,
    /// The header names a version of the format that is not understood.
    UnsupportedReplayVersion,
    /// A frame's payload is not well-formed UTF-8.
    InvalidUtf8Sequence,
}

impl DogStatsDReplayReaderError {
    /// A sentence that describes the error.
    pub fn message(&self) -> (r: &'static str) {
        match self {
            DogStatsDReplayReaderError::NotAReplayFile => "No dogstatsd replay marker found",
            DogStatsDReplayReaderError::UnsupportedReplayVersion => "Unsupported replay version",
            DogStatsDReplayReaderError::InvalidUtf8Sequence => "Invalid UTF-8 sequence found in payload of msg",
        }
    }
}

} // verus!
