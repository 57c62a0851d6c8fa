//! The verified core of a spatiotemporal observation store.
//!
//! The store keeps timestamped, geolocated observations of moving
//! entities in segment files, one for each spatial cell and five-minute
//! bin, and answers what was near a point within a span of time.
//!
//! The crate holds the decisions of the storage engine and none of its
//! input or output: how observations are keyed by cell and time bin, how a
//! segment file is framed and read back, how a segment is compacted, which
//! segments a range query has to read and which records it keeps. Callers
//! read and write the files and hand the bytes over. They also do what
//! needs floating-point arithmetic: finding the cell of a position and the
//! distance between two positions.
//!
//! - `model`: positions, instants, observations and their identifiers.
//! - `partition`: time bins and partition keys.
//! - `segment`: the bytes of a segment file.
//! - `names`: the names of the segment files.
//! - `ingest`: the split of a batch by partition.
//! - `compact`: deduplication and compaction of a segment.
//! - `query`: the candidates of a range query and the choice among the
//!   records read.
//! - `inventory`: the listing of the segment files.
//! - `store`: the store and its operations, in terms of the above.
//! - `wire`: the values of the network service.
//! - `sort`: the stable sort on which compaction, queries and the
//!   inventory rest.

pub mod compact;
pub mod ingest;
pub mod inventory;
pub mod model;
pub mod names;
pub mod partition;
pub mod query;
pub mod segment;
pub mod sort;
pub mod store;
pub mod wire;
