//! A small in-memory key-value server core: the RESP-like frame codec, the
//! buffered connection state machine that feeds it, and the sharded store.

pub mod buffer;
pub mod connection;
pub mod cursor;
pub mod decimal;
pub mod frame;
pub mod frame_eq;
pub mod handler;
pub mod laws;
pub mod shard_db;
pub mod text;
pub mod wire;

pub use connection::Connection;
pub use frame::Frame;
pub use shard_db::hash;
pub use shard_db::ShardDb;
