//! Management of isolated local instances of a multi-port application server:
//! deriving a non-overlapping port and identity set per instance id, rewriting
//! the configuration documents that carry those ports, upserting managed keys
//! in a flat properties file, and deciding liveness and process attribution
//! from probe and process-table observations supplied by the caller.

pub mod cli;
pub mod manager;
pub mod ports;
pub mod procs;
pub mod props;
pub mod text;
pub mod xml;
