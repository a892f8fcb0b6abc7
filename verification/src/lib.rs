//! Read-side query layer of a sharded, partially materialized dataflow view.
//!
//! A view's rows are horizontally partitioned into shards; a lookup routes
//! each key to the shard holding it, carries the request to that shard's
//! serving endpoint (in-process, or over a byte-encoded wire envelope),
//! merges the per-shard replies, and optionally blocks while a key is still
//! being materialized. Transactional reads additionally track a monotonically
//! non-decreasing timestamp and attach a consistency token to each result.

pub mod codec;
pub mod envelope;
pub mod getter;
pub mod protocol;
pub mod remote;
pub mod store;
pub mod value;
