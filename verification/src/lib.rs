//! Jab: a small peer-to-peer blockchain node library.
//!
//! The crate holds the verified core of a node: the wallet primitive, the
//! block and transaction model, the persistent chain engine with its JSON
//! codec, the miner roster, the wire message envelope and transaction
//! admission. I/O, networking and scheduling live outside the library and
//! drive it through plain values.

pub mod admission;
pub mod amount;
pub mod block;
pub mod chain;
pub mod codec;
pub mod config;
pub mod database;
pub mod hashing;
pub mod keys;
pub mod merkle;
pub mod messages;
pub mod mining;
pub mod protocol;
pub mod store;
pub mod transaction;
pub mod wallet;
