//! Request-routing core of a clustered key-value proxy: the cluster topology
//! table with its checksum-gated slot map, and the per-connection pipeline that
//! reads, dispatches and writes commands in client order.

pub mod error;
pub mod slots;
pub mod handler;
