pub mod bytemap;
pub mod bytes;
pub mod config;
pub mod consensus;
pub mod crypto;
pub mod miner;
pub mod net;
pub mod node;
pub mod primitives;
pub mod rpc;
