//! Calibration records and their lineage.

pub mod laws;
pub mod store;
