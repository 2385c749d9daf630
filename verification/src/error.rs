//! Error types shared by the stores and the data model.

use vstd::prelude::*;

verus! {

/// What is structurally wrong with a sample, an event or a record.
#[derive(Debug, Clone, PartialEq, Eq)]
pub enum EnvError {
    /// A field that must be filled is empty.
    MissingField(&'static str),
    /// A score that must lie in `0.0..=1.0` does not; the score is given as
    /// the bits of its single-precision number.
    QualityOutOfRange(u32),
    /// A time span that ends before it starts.
    TimeInverted { measured_ns: u64, received_ns: u64 },
    /// Anything else, in words.
    Invalid(String),
}

/// Errors of the durable stores.
#[derive(Debug, Clone, PartialEq, Eq)]
pub enum StoreError {
    /// The file system refused an operation; its message.
    Io(String),
    /// The record itself was refused.
    Core(EnvError),
    /// A stored line does not decode.
    Corrupt {
        /// The segment file.
        segment: String,
        /// The line in it, counted from one.
        line: usize,
        /// Why it does not decode.
        reason: String,
    },
}

/// What became of an append.
#[derive(Debug, Clone, Copy, PartialEq, Eq, Structural)]
pub enum AppendOutcome {
    /// The record was new and has been stored.
    Appended,
    /// A record with this key was stored before.
    Duplicate,
}

} // verus!
