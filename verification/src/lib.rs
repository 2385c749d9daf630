//! Verified core of a sensor-fabric gateway.

pub mod calibration;
pub mod error;
pub mod federation;
pub mod gateway;
pub mod model;
pub mod store;
pub mod text;
