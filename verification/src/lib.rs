//! **abus**: the coordination layer for a team of agents.
//!
//! * [`board`]: the durable source of truth, a schemaless `key → fields`
//!   tracker whose entries can be claimed under a lease.
//! * [`snapshot`]: the board as JSON, and the snapshot text that mirrors it
//!   across a restart.
//!
//! Both are pure logic over in-memory state: the host owns the I/O. Beneath
//! them, [`keys`] orders text keys, [`sorted_map`] keeps key-ordered maps,
//! and [`json_tree`] is the trusted boundary to the `json` crate. [`laws`]
//! states and proves what holds across the board's operations.

pub mod keys;
pub mod json_tree;
pub mod sorted_map;
pub mod board;
pub mod snapshot;
pub mod laws;
