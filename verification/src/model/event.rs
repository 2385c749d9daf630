//! `EnvironmentalEvent`: the signed event class that federates.

use crate::error::EnvError;
use vstd::prelude::*;
use vstd::string::*;

verus! {

/// Event severity ladder, from the mildest up.
#[derive(Debug, Clone, Copy, PartialEq, Eq, PartialOrd, Ord, Hash, Structural)]
pub enum Severity {
    /// Informational; may rest on contextual evidence.
    Advisory,
    /// Elevated attention.
    Watch,
    /// Action recommended.
    Warning,
    /// Immediate action.
    Critical,
}

/// What kind of event this is.
#[derive(Debug, Clone, Copy, PartialEq, Eq, Hash, Structural)]
pub enum EventKind {
    /// A local anomaly threshold fired.
    ThresholdExceeded,
    /// Statistical anomaly relative to expected behaviour.
    Anomaly,
    /// Physical tampering or displacement suspected.
    SensorTampered,
    /// A sensor was quarantined for drift (never silently corrected).
    SensorQuarantined,
    /// A device key was revoked.
    DeviceRevoked,
    /// Calibration drift detected against an anchor.
    CalibrationDrift,
    /// Flood risk assessment.
    FloodRisk,
    /// Wildfire risk assessment.
    WildfireRisk,
    /// A cross-boundary alert federated from or to a neighbouring biome.
    CrossBoundaryAlert,
}

/// How far a piece of data may travel.
#[derive(Debug, Clone, Copy, PartialEq, Eq, Structural)]
#[non_exhaustive]
pub enum DataClass {
    /// The only class that leaves the biome.
    FederatedEvent,
}

/// Reference to a contributing observation, by its dedup key.
#[derive(Debug, Clone, Copy, PartialEq, Eq, Hash, Structural)]
pub struct EvidenceRef {
    /// Producing device.
    pub node_id: u64,
    /// Sample sequence number on that device.
    pub sequence: u32,
}

/// A biome-scoped environmental event.
#[derive(Debug, Clone, PartialEq, Eq)]
pub struct EnvironmentalEvent {
    /// Wire spec version.
    pub spec_version: String,
    /// Unique event id.
    pub event_id: String,
    /// Owning biome.
    pub biome_id: String,
    /// Event kind.
    pub kind: EventKind,
    /// Severity.
    pub severity: Severity,
    /// Name of the modality that produced the evidence.
    pub modality: String,
    /// Location (possibly coarsened by the biome's disclosure policy), as the
    /// compact JSON of its coordinates.
    pub geo: String,
    /// Evidence window start, ns since Unix epoch.
    pub window_start_ns: u64,
    /// Evidence window end, ns since Unix epoch.
    pub window_end_ns: u64,
    /// Detection time, ns since Unix epoch.
    pub detected_ns: u64,
    /// Contributing observations.
    pub evidence: Vec<EvidenceRef>,
    /// Detection confidence `0.0..=1.0`, as JSON has the number.
    pub confidence: String,
    /// Human-readable summary.
    pub message: String,
    /// Hex ed25519 signature by the biome or gateway key, if signed.
    pub signature_hex: Option<String>,
    /// Hex signer public key, if signed.
    pub signer_pubkey_hex: Option<String>,
}

/// The bits of `1.0` in single precision.
pub const ONE_BITS: u32 = 0x3F80_0000;

/// The bits of `-0.0` in single precision.
pub const NEGATIVE_ZERO_BITS: u32 = 0x8000_0000;

/// Whether single-precision bits stand for a number in `0.0..=1.0`. From `0.0`
/// up, the bits are ordered as the numbers are, with infinity and the values
/// that are no number above all of them. The other half of the bits stands for
/// the same with a minus sign, and only `-0.0` of those lies in the range.
pub open spec fn is_unit_score(bits: u32) -> bool {
    bits <= ONE_BITS || bits == NEGATIVE_ZERO_BITS
}

impl EnvironmentalEvent {
    /// The first structural fault, given what is wrong with the location and
    /// the single-precision bits of the confidence.
    pub open spec fn fault(self, geo: Result<(), EnvError>, confidence_bits: u32) -> Result<
        (),
        EnvError,
    > {
        if geo is Err {
            geo
        } else if self.event_id@.len() == 0 {
            Err(EnvError::MissingField("event_id"))
        } else if self.biome_id@.len() == 0 {
            Err(EnvError::MissingField("biome_id"))
        } else if !is_unit_score(confidence_bits) {
            Err(EnvError::QualityOutOfRange(confidence_bits))
        } else if self.window_end_ns < self.window_start_ns {
            Err(
                EnvError::TimeInverted {
                    measured_ns: self.window_start_ns,
                    received_ns: self.window_end_ns,
                },
            )
        } else if self.evidence@.len() == 0 {
            Err(EnvError::MissingField("evidence"))
        } else {
            Ok(())
        }
    }

    /// The data class of every environmental event.
    pub fn data_class(&self) -> (class: DataClass)
        ensures
            class == DataClass::FederatedEvent,
    {
        DataClass::FederatedEvent
    }

    /// Structural validation. `geo` is the verdict on the event's location,
    /// which whoever knows the coordinate system gives, and `confidence_bits`
    /// the single-precision number that its confidence stands for, which
    /// whoever reads such numbers gives.
    pub fn validate(&self, geo: Result<(), EnvError>, confidence_bits: u32) -> (verdict: Result<
        (),
        EnvError,
    >)
        ensures
            verdict == self.fault(geo, confidence_bits),
    {
        match geo {
            Ok(()) => {},
            Err(e) => {
                return Err(e);
            },
        }
        if self.event_id.as_str().is_empty() {
            return Err(EnvError::MissingField("event_id"));
        }
        if self.biome_id.as_str().is_empty() {
            return Err(EnvError::MissingField("biome_id"));
        }
        if confidence_bits > ONE_BITS && confidence_bits != NEGATIVE_ZERO_BITS {
            return Err(EnvError::QualityOutOfRange(confidence_bits));
        }
        if self.window_end_ns < self.window_start_ns {
            return Err(
                EnvError::TimeInverted {
                    measured_ns: self.window_start_ns,
                    received_ns: self.window_end_ns,
                },
            );
        }
        if self.evidence.len() == 0 {
            return Err(EnvError::MissingField("evidence"));
        }
        Ok(())
    }
}

} // verus!
