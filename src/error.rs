//! The failures that end a run of the pipeline or of a playback.

use vstd::prelude::*;

verus! {

/// Every failure is final for the run in which it comes.
#[derive(Debug, Clone, Copy, PartialEq, Eq)]
pub enum PipelineError {
    /// No target dimension, a zero one, or one that cannot be derived.
    InputValidationError,
    /// The probe tool's output is not what was asked for.
    MediaProbeError,
    /// An outside tool exited with a failure status.
    ProcessFailure,
    /// The frame source ended in the middle of a frame.
    TruncatedFrame,
    /// The stream's header is missing or malformed.
    StreamFormatError,
    /// The stream's encoded or compressed bytes are corrupt.
    DecodeError,
}

} // verus!
