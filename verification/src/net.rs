pub mod mempool;
pub mod node;
pub mod protocol;
