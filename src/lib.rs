//! A fan-out hub for named channels: the registry of live subscribers,
//! delivery planning, eviction of dead subscribers, and the single-instance
//! guard of a background producer. Sending on a transport is left to the
//! caller, which hands back what failed.
pub mod producer;
pub mod registry;
