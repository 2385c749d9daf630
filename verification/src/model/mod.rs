//! The data that moves through the fabric: samples, their keys, and events.

pub mod event;
pub mod keys;
pub mod sample;
