//! An authoritative/forwarding DNS server core: aggregates records from many
//! independently-updating sources into one merged snapshot, partitions that
//! snapshot into per-domain zones with configurable authority, and resolves
//! queries either from local zone data or by delegating to an upstream.

pub mod config;
pub mod dns;
pub mod resolve;
pub mod server;
pub mod sources;
pub mod zones;

pub use server::RecordServer;
