//! Compact, type-tagged telemetry entries framed into checksummed packets.
pub mod data_entry;
pub mod entry;
pub mod entry_types;
pub mod packet;
