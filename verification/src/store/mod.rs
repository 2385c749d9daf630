//! The durable logs: segment files, the observation store, the event store.

pub mod event_fields;
pub mod event_laws;
pub mod events;
pub mod file_laws;
pub mod layout;
pub mod lines;
pub mod load;
pub mod observation_laws;
pub mod observation_runs;
pub mod observations;
pub mod sample_fields;
pub mod segment;
