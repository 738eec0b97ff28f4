//! Error kinds of the engine.
//!
//! All failures here are defects in the program or in the host-supplied data,
//! never transient conditions: the dispatcher, the executors and the driver
//! fail fast and surface the first error to the caller rather than skipping
//! or defaulting a value.

use vstd::prelude::*;

verus! {

/// A malformed field literal or malformed query syntax. Carries the text that
/// failed to parse.
#[derive(Clone, Debug, PartialEq, Eq)]
pub struct ParseError {
    pub text: Vec<u8>,
}

/// A failure while answering an oracle query, or while executing the program.
#[derive(Clone, Debug, PartialEq, Eq)]
pub enum QueryError {
    /// An argument or the query itself failed to parse.
    Parse(ParseError),
    /// An index reached past the end of a channel; carries the channel name,
    /// the requested index and the channel length for diagnosis.
    IndexOutOfBounds { name: Vec<u8>, index: u64, len: u64 },
    /// The requested data channel has no entry in the table.
    UnknownChannel { channel: u64 },
    /// The tag is not one of the fixed well-formed tags, or the argument
    /// count does not fit the tag. Carries the whole query text.
    Unsupported(Vec<u8>),
}

/// A failure of a pipeline stage, reported as a list of human-readable
/// messages: several independent defects may be detected at once.
#[derive(Clone, Debug, PartialEq, Eq)]
pub struct PipelineError {
    pub messages: Vec<String>,
}

} // verus!
