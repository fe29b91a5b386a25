//! An in-memory key/value cache that speaks the RESP wire protocol: a frame
//! codec, a sharded store with capacity-driven eviction, and the command model
//! that connects the two.

pub mod bytes;
pub mod cmd;
pub mod codec;
pub mod connection;
pub mod db;
pub mod error;
pub mod frame;
