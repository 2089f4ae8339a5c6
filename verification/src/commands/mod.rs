//! What the interface can ask of the collector's state.
pub mod network;
