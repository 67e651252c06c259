//! Weighted consistent hashing on a sorted ring of virtual points.
//!
//! A [`continuum::Continuum`] is built once from an ordered list of weighted
//! nodes. Every node contributes virtual points in proportion to its weight;
//! a key is served by the node that owns the first point at or after the
//! key's checksum, wrapping round to the first point of the ring.
//!
//! - [`addr`] and [`text`]: node addresses and the bytes that identify a node.
//! - [`bucket`]: a node with its weight.
//! - [`crc`]: the checksum, computed by `crc32fast`.
//! - [`point`] and [`sort`]: virtual points, their chain of checksums and
//!   their order.
//! - [`ring`]: the ring as a sequence of points, and where a checksum lands.
//! - [`members`]: which points a list of nodes puts on the ring.
//! - [`continuum`]: the ring with its node table, lookup and iteration.
//! - [`laws`]: what holds of every continuum.
pub mod crc;
pub mod text;
pub mod addr;
pub mod bucket;
pub mod point;
pub mod sort;
pub mod ring;
pub mod members;
pub mod continuum;
pub mod laws;
