//! What biomes exchange: signed summaries and events.

pub mod buffer;
pub mod buffer_laws;
pub mod bus;
pub mod bus_laws;
pub mod events;
pub mod grouping;
pub mod json;
pub mod key_bus;
pub mod sig;
pub mod summary;
pub mod summary_laws;
pub mod window_laws;
pub mod wire_laws;
