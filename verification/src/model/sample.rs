//! One accepted observation.

use vstd::prelude::*;

verus! {

/// A normalized observation, with the fields that the core reads as plain
/// values and the others carried along as they are encoded.
#[derive(Debug, Clone, PartialEq, Eq)]
pub struct EnvSample {
    /// Producing device.
    pub node_id: u64,
    /// Sequence number on that device.
    pub sequence: u32,
    /// Measurement time, ns since Unix epoch.
    pub measured_ns: u64,
    /// Name of the modality, such as `weather`.
    pub modality: String,
    /// Calibrated value, as the bits of its double-precision number.
    pub value_bits: u64,
    /// Quality score, as the bits of its single-precision number.
    pub quality_bits: u32,
    /// All other fields, encoded.
    pub body: String,
}

impl EnvSample {
    /// The key by which a sample is recognized when it comes again.
    pub open spec fn key(self) -> (u64, u32) {
        (self.node_id, self.sequence)
    }

    /// The stable dedup key `(node_id, sequence)`.
    pub fn dedup_key(&self) -> (key: (u64, u32))
        ensures
            key == self.key(),
    {
        (self.node_id, self.sequence)
    }
}

} // verus!
